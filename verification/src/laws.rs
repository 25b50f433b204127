//! What the library promises across its functions: a serialized message
//! reads back as its values, and so does a single value; a write only
//! appends, starting with zero padding shorter than its alignment; whether a
//! write succeeds does not depend on what precedes it; a time with any int32
//! seconds and any uint32 nanoseconds, and an array of any items that write,
//! the empty one too, are written; keys that are not fields and the order of
//! entries do not change a payload; reading fails only with a stream or
//! schema error; bytes after a message are ignored; only the first two header
//! bytes are checked; a structure type name is trimmed; each schema field
//! takes the type its type name denotes; every payload carries the CDR
//! header; a schema's listing defines that schema again; and registering and
//! unregistering a schema do what a lookup afterwards shows.

use crate::decode::{
    aligned, deserialize_spec, dict_insert, left, lemma_unvisited_bound, lemma_unvisited_step,
    lemma_word_bounds, read_fields, read_items, read_message, read_value, signed, unvisited, word,
    ReadSpec,
};
use crate::encode::{
    cdr_le_header, find_key, lemma_fields_append, lemma_find_key_from, lemma_items_append,
    lemma_pad_grows, lemma_prefix_trans, lemma_write_appends, length_word, pad_to, scalar_align, serialize_spec, write_fields,
    write_items, write_message, write_value,
};
use crate::error::{CallErrorSpec, ErrorSpec};
use crate::field_type::{law_type_name_roundtrip, name_of_type, names_canonical, type_from_name, TypeSpec};
use crate::text::trim_spec;
use crate::le::{lemma_pow256_values, le_bytes, pow256, twos};
use crate::registry::{schema_listing, RegistrySpec, SchemaRegistry};
use crate::schema::{field_from_item, schema_from_items, FieldSpec, SchemaItem, SchemaSpec};
use crate::value::{f32_bits_of, f64_bits_of, int_of, kind_name, DecodedSpec, Value};
use vstd::prelude::*;
use vstd::utf8::encode_utf8;

verus! {

/// The schemas that writing `v` as `t` enters before it writes any byte.
pub open spec fn entered(
    reg: RegistrySpec,
    t: TypeSpec,
    v: Value,
    path: Seq<char>,
    label: Seq<char>,
    got: Seq<char>,
    buf: Seq<u8>,
) -> Set<Seq<char>>
    decreases v, 1nat, 0int,
{
    match t {
        TypeSpec::Struct(name) => match v {
            Value::Dict(_) => if reg.contains_key(name) {
                set![name].union(entered_fields(reg, reg[name], v, 0, path, label, got, buf))
            } else {
                Set::empty()
            },
            _ => Set::empty(),
        },
        _ => Set::empty(),
    }
}

/// The schemas that writing the fields of `schema` from position `i` on
/// enters before any byte is written.
pub open spec fn entered_fields(
    reg: RegistrySpec,
    schema: SchemaSpec,
    dict: Value,
    i: int,
    path: Seq<char>,
    label: Seq<char>,
    got: Seq<char>,
    buf: Seq<u8>,
) -> Set<Seq<char>>
    decreases dict, 0nat, if i < schema.len() { schema.len() - i } else { 0 },
{
    match dict {
        Value::Dict(entries) => if 0 <= i < schema.len() {
            let fname = schema[i].0;
            match find_key(entries@, fname) {
                None => Set::empty(),
                Some(k) => {
                    proof {
                        lemma_find_key_from(entries@, fname, 0);
                    }
                    let w = entries@[k].1;
                    let sub = path + "."@ + fname;
                    entered(reg, schema[i].1, w, sub, label, got, buf).union(
                        if write_value(reg, schema[i].1, w, sub, label, got, buf) == Ok::<
                            Seq<u8>,
                            ErrorSpec,
                        >(buf) {
                            entered_fields(reg, schema, dict, i + 1, path, label, got, buf)
                        } else {
                            Set::empty()
                        },
                    )
                },
            }
        } else {
            Set::empty()
        },
        _ => Set::empty(),
    }
}

/// Two successful writes of a type at the same position enter the same
/// schemas before their first byte, and either both write nothing or
/// neither does.
proof fn lemma_entered_same(
    reg: RegistrySpec,
    t: TypeSpec,
    v1: Value,
    p1: Seq<char>,
    l1: Seq<char>,
    g1: Seq<char>,
    v2: Value,
    p2: Seq<char>,
    l2: Seq<char>,
    g2: Seq<char>,
    buf: Seq<u8>,
)
    requires
        write_value(reg, t, v1, p1, l1, g1, buf) is Ok,
        write_value(reg, t, v2, p2, l2, g2, buf) is Ok,
    ensures
        entered(reg, t, v1, p1, l1, g1, buf) == entered(reg, t, v2, p2, l2, g2, buf),
        (write_value(reg, t, v1, p1, l1, g1, buf) == Ok::<Seq<u8>, ErrorSpec>(buf)) == (
        write_value(reg, t, v2, p2, l2, g2, buf) == Ok::<Seq<u8>, ErrorSpec>(buf)),
    decreases v1, 1nat, 0int,
{
    lemma_write_appends(reg, t, v1, p1, l1, g1, buf);
    lemma_write_appends(reg, t, v2, p2, l2, g2, buf);
    if let TypeSpec::Struct(name) = t {
        lemma_fields_same(reg, reg[name], v1, p1, l1, g1, v2, p2, l2, g2, 0, buf);
    }
}

proof fn lemma_fields_same(
    reg: RegistrySpec,
    schema: SchemaSpec,
    d1: Value,
    p1: Seq<char>,
    l1: Seq<char>,
    g1: Seq<char>,
    d2: Value,
    p2: Seq<char>,
    l2: Seq<char>,
    g2: Seq<char>,
    i: int,
    buf: Seq<u8>,
)
    requires
        d1 is Dict,
        d2 is Dict,
        write_fields(reg, schema, d1, i, p1, l1, g1, buf) is Ok,
        write_fields(reg, schema, d2, i, p2, l2, g2, buf) is Ok,
    ensures
        entered_fields(reg, schema, d1, i, p1, l1, g1, buf) == entered_fields(
            reg,
            schema,
            d2,
            i,
            p2,
            l2,
            g2,
            buf,
        ),
        (write_fields(reg, schema, d1, i, p1, l1, g1, buf) == Ok::<Seq<u8>, ErrorSpec>(buf)) == (
        write_fields(reg, schema, d2, i, p2, l2, g2, buf) == Ok::<Seq<u8>, ErrorSpec>(buf)),
    decreases d1, 0nat, if i < schema.len() { schema.len() - i } else { 0 },
{
    if 0 <= i < schema.len() {
        let fname = schema[i].0;
        let e1 = d1->Dict_0;
        let e2 = d2->Dict_0;
        lemma_find_key_from(e1@, fname, 0);
        lemma_find_key_from(e2@, fname, 0);
        let k1 = find_key(e1@, fname)->Some_0;
        let k2 = find_key(e2@, fname)->Some_0;
        let w1 = e1@[k1].1;
        let w2 = e2@[k2].1;
        let s1 = p1 + "."@ + fname;
        let s2 = p2 + "."@ + fname;
        lemma_entered_same(reg, schema[i].1, w1, s1, l1, g1, w2, s2, l2, g2, buf);
        let b1 = write_value(reg, schema[i].1, w1, s1, l1, g1, buf)->Ok_0;
        let b2 = write_value(reg, schema[i].1, w2, s2, l2, g2, buf)->Ok_0;
        lemma_fields_append(reg, schema, d1, i + 1, p1, l1, g1, b1);
        lemma_fields_append(reg, schema, d2, i + 1, p2, l2, g2, b2);
        lemma_write_appends(reg, schema[i].1, w1, s1, l1, g1, buf);
        lemma_write_appends(reg, schema[i].1, w2, s2, l2, g2, buf);
        if b1 == buf {
            lemma_fields_same(reg, schema, d1, p1, l1, g1, d2, p2, l2, g2, i + 1, buf);
        } else {
            assert(b1.len() > buf.len()) by {
                if b1.len() == buf.len() {
                    assert(b1 =~= buf);
                }
            }
            assert(b2.len() > buf.len()) by {
                if b2.len() == buf.len() {
                    assert(b2 =~= buf);
                }
            }
        }
    }
}

/// A schema entered before the first byte of a successful write is the type
/// of a successful write, at the same position, of the value itself or of a
/// value inside it.
proof fn lemma_locate(
    reg: RegistrySpec,
    t: TypeSpec,
    w: Value,
    path: Seq<char>,
    label: Seq<char>,
    got: Seq<char>,
    buf: Seq<u8>,
    n: Seq<char>,
)
    requires
        write_value(reg, t, w, path, label, got, buf) is Ok,
        entered(reg, t, w, path, label, got, buf).contains(n),
    ensures
        exists|u: Value, pu: Seq<char>, lu: Seq<char>, gu: Seq<char>|
            (u == w || decreases_to!(w => u)) && (#[trigger] write_value(
                reg,
                TypeSpec::Struct(n),
                u,
                pu,
                lu,
                gu,
                buf,
            )) is Ok,
    decreases w, 1nat, 0int,
{
    let m = t->Struct_0;
    if m == n {
        assert(write_value(reg, TypeSpec::Struct(n), w, path, label, got, buf) is Ok);
    } else {
        lemma_locate_fields(reg, reg[m], w, 0, path, label, got, buf, n);
    }
}

proof fn lemma_locate_fields(
    reg: RegistrySpec,
    schema: SchemaSpec,
    d: Value,
    i: int,
    path: Seq<char>,
    label: Seq<char>,
    got: Seq<char>,
    buf: Seq<u8>,
    n: Seq<char>,
)
    requires
        write_fields(reg, schema, d, i, path, label, got, buf) is Ok,
        entered_fields(reg, schema, d, i, path, label, got, buf).contains(n),
    ensures
        exists|u: Value, pu: Seq<char>, lu: Seq<char>, gu: Seq<char>|
            decreases_to!(d => u) && (#[trigger] write_value(
                reg,
                TypeSpec::Struct(n),
                u,
                pu,
                lu,
                gu,
                buf,
            )) is Ok,
    decreases d, 0nat, if i < schema.len() { schema.len() - i } else { 0 },
{
    let entries = d->Dict_0;
    let fname = schema[i].0;
    lemma_find_key_from(entries@, fname, 0);
    let k = find_key(entries@, fname)->Some_0;
    let w = entries@[k].1;
    let sub = path + "."@ + fname;
    assert(decreases_to!(d => w));
    if entered(reg, schema[i].1, w, sub, label, got, buf).contains(n) {
        lemma_locate(reg, schema[i].1, w, sub, label, got, buf, n);
        let (u, pu, lu, gu) = choose|u: Value, pu: Seq<char>, lu: Seq<char>, gu: Seq<char>|
            (u == w || decreases_to!(w => u)) && (#[trigger] write_value(
                reg,
                TypeSpec::Struct(n),
                u,
                pu,
                lu,
                gu,
                buf,
            )) is Ok;
        assert(decreases_to!(d => u));
    } else {
        lemma_locate_fields(reg, schema, d, i + 1, path, label, got, buf, n);
    }
}

/// A successful write of a structure never enters that structure's schema
/// again before its first byte: a schema that contains itself with nothing
/// written in between could only be written from an endless value.
proof fn lemma_no_reentry(
    reg: RegistrySpec,
    n: Seq<char>,
    v: Value,
    path: Seq<char>,
    label: Seq<char>,
    got: Seq<char>,
    buf: Seq<u8>,
)
    requires
        reg.contains_key(n),
        write_value(reg, TypeSpec::Struct(n), v, path, label, got, buf) is Ok,
    ensures
        !entered_fields(reg, reg[n], v, 0, path, label, got, buf).contains(n),
    decreases v,
{
    if entered_fields(reg, reg[n], v, 0, path, label, got, buf).contains(n) {
        lemma_locate_fields(reg, reg[n], v, 0, path, label, got, buf, n);
        let (u, pu, lu, gu) = choose|u: Value, pu: Seq<char>, lu: Seq<char>, gu: Seq<char>|
            decreases_to!(v => u) && (#[trigger] write_value(
                reg,
                TypeSpec::Struct(n),
                u,
                pu,
                lu,
                gu,
                buf,
            )) is Ok;
        lemma_fields_same(reg, reg[n], v, path, label, got, u, pu, lu, gu, 0, buf);
        lemma_no_reentry(reg, n, u, pu, lu, gu, buf);
    }
}

/// Whether every count that writing `v` as `t` puts in four bytes holds its
/// number: the encoded length of a string with its terminator, and the
/// length of a byte string or of a list, each below 2^32; for `v` and for
/// every value inside it that the write reaches.
pub open spec fn fits(reg: RegistrySpec, t: TypeSpec, v: Value) -> bool
    decreases v, 1nat, 0int,
{
    match t {
        TypeSpec::RosString => match v {
            Value::Str(s) => encode_utf8(s@).len() + 1 < 0x1_0000_0000,
            _ => true,
        },
        TypeSpec::RosBytes => match v {
            Value::Bytes(b) => b@.len() < 0x1_0000_0000,
            _ => true,
        },
        TypeSpec::Array(inner) => match v {
            Value::List(items) => items@.len() < 0x1_0000_0000 && fits_items(reg, *inner, v, 0),
            _ => true,
        },
        TypeSpec::Struct(name) => match v {
            Value::Dict(_) => !reg.contains_key(name) || fits_fields(reg, reg[name], v, 0),
            _ => true,
        },
        _ => true,
    }
}

/// Whether the items of list `list` from position `j` on fit as `inner`
/// (see [`fits`]).
pub open spec fn fits_items(reg: RegistrySpec, inner: TypeSpec, list: Value, j: int) -> bool
    decreases list, 0nat, if list is List && j < list->List_0@.len() { list->List_0@.len() - j } else { 0 },
{
    match list {
        Value::List(items) => if 0 <= j < items@.len() {
            fits(reg, inner, items@[j]) && fits_items(reg, inner, list, j + 1)
        } else {
            true
        },
        _ => true,
    }
}

/// Whether the values that the fields of `schema` from position `i` on take
/// from the mapping `dict` fit (see [`fits`]).
pub open spec fn fits_fields(reg: RegistrySpec, schema: SchemaSpec, dict: Value, i: int) -> bool
    decreases dict, 0nat, if i < schema.len() { schema.len() - i } else { 0 },
{
    match dict {
        Value::Dict(entries) => if 0 <= i < schema.len() {
            let fname = schema[i].0;
            match find_key(entries@, fname) {
                Some(k) => {
                    proof {
                        lemma_find_key_from(entries@, fname, 0);
                    }
                    fits(reg, schema[i].1, entries@[k].1) && fits_fields(reg, schema, dict, i + 1)
                },
                None => true,
            }
        } else {
            true
        },
        _ => true,
    }
}

/// Whether the values that the fields of `schema` from position `i` on take
/// from the top-level `values` fit (see [`fits`]).
pub open spec fn fits_message(
    reg: RegistrySpec,
    schema: SchemaSpec,
    values: Seq<(String, Value)>,
    i: int,
) -> bool
    decreases if i < schema.len() { schema.len() - i } else { 0 },
{
    if 0 <= i < schema.len() {
        match find_key(values, schema[i].0) {
            Some(k) => {
                proof {
                    lemma_find_key_from(values, schema[i].0, 0);
                }
                fits(reg, schema[i].1, values[k].1) && fits_message(reg, schema, values, i + 1)
            },
            None => true,
        }
    } else {
        true
    }
}

/// What reading back value `v`, written as type `t`, gives.
pub open spec fn decoded_of(reg: RegistrySpec, t: TypeSpec, v: Value) -> DecodedSpec
    decreases v, 1nat, 0int,
{
    match t {
        TypeSpec::Bool => DecodedSpec::Bool(v->Bool_0),
        TypeSpec::Float32 => DecodedSpec::Float32(f32_bits_of(v)->Some_0),
        TypeSpec::Float64 => DecodedSpec::Float64(f64_bits_of(v)->Some_0),
        TypeSpec::RosString => DecodedSpec::Str(v->Str_0@),
        TypeSpec::RosBytes => DecodedSpec::Bytes(v->Bytes_0@),
        TypeSpec::Array(inner) => DecodedSpec::List(decoded_items(reg, *inner, v, 0, Seq::empty())),
        TypeSpec::Struct(name) => DecodedSpec::Dict(
            decoded_fields(reg, reg[name], v, 0, Seq::empty()),
        ),
        TypeSpec::Time | TypeSpec::Duration => match v {
            Value::Dict(entries) => DecodedSpec::Dict(
                seq![("sec"@, DecodedSpec::Int(int_of(entries@[find_key(entries@, "sec"@)->Some_0].1)->Some_0)), ("nanosec"@, DecodedSpec::Int(int_of(entries@[find_key(entries@, "nanosec"@)->Some_0].1)->Some_0))],
            ),
            _ => DecodedSpec::Dict(Seq::empty()),
        },
        _ => DecodedSpec::Int(int_of(v)->Some_0),
    }
}

/// The items read back from position `j` on, after `acc`.
pub open spec fn decoded_items(
    reg: RegistrySpec,
    inner: TypeSpec,
    list: Value,
    j: int,
    acc: Seq<DecodedSpec>,
) -> Seq<DecodedSpec>
    decreases list, 0nat, if list is List && j < list->List_0@.len() { list->List_0@.len() - j } else { 0 },
{
    match list {
        Value::List(items) => if 0 <= j < items@.len() {
            decoded_items(reg, inner, list, j + 1, acc.push(decoded_of(reg, inner, items@[j])))
        } else {
            acc
        },
        _ => acc,
    }
}

/// The entries read back for the fields of `schema` from position `i` on,
/// after `acc`.
pub open spec fn decoded_fields(
    reg: RegistrySpec,
    schema: SchemaSpec,
    dict: Value,
    i: int,
    acc: Seq<(Seq<char>, DecodedSpec)>,
) -> Seq<(Seq<char>, DecodedSpec)>
    decreases dict, 0nat, if i < schema.len() { schema.len() - i } else { 0 },
{
    match dict {
        Value::Dict(entries) => if 0 <= i < schema.len() {
            let fname = schema[i].0;
            match find_key(entries@, fname) {
                Some(k) => {
                    proof {
                        lemma_find_key_from(entries@, fname, 0);
                    }
                    decoded_fields(
                        reg,
                        schema,
                        dict,
                        i + 1,
                        dict_insert(acc, fname, decoded_of(reg, schema[i].1, entries@[k].1)),
                    )
                },
                None => acc,
            }
        } else {
            acc
        },
        _ => acc,
    }
}

/// Reading aligns exactly where writing padded.
proof fn lemma_aligned_pad(buf: Seq<u8>, a: int, len: int)
    requires
        a == 1 || a == 2 || a == 4 || a == 8,
        pad_to(buf, a as nat).len() <= len,
    ensures
        aligned(len, buf.len() as int, a) == Ok::<int, ErrorSpec>(pad_to(buf, a as nat).len() as int),
        (pad_to(buf, a as nat).len() as int) % a == 0,
{
    let x = buf.len() as int;
    let r = x % a;
    if r != 0 {
        assert((x + (a - r)) % a == 0) by (nonlinear_arith)
            requires
                a > 0,
                r == x % a,
        {
            assert(x == a * (x / a) + r);
            assert(x + (a - r) == a * (x / a + 1));
        }
    }
}

/// A word written after padding is read back whole.
proof fn lemma_word_at(data: Seq<u8>, buf: Seq<u8>, a: int, x: int)
    requires
        a == 1 || a == 2 || a == 4 || a == 8,
        0 <= x < pow256(a as nat),
        (pad_to(buf, a as nat) + le_bytes(x, a as nat)).is_prefix_of(data),
    ensures
        word(data, buf.len() as int, a) == Ok::<(nat, int), ErrorSpec>(
            (x as nat, pad_to(buf, a as nat).len() + a),
        ),
        le_bytes(x, a as nat).len() == a,
{
    crate::le::lemma_le_roundtrip(x, a as nat);
    let p = pad_to(buf, a as nat);
    lemma_aligned_pad(buf, a, data.len() as int);
    lemma_prefix_piece(p, le_bytes(x, a as nat), data);
}

/// The part after `a` of a prefix `a + b` of `data` is `b`.
proof fn lemma_prefix_piece(a: Seq<u8>, b: Seq<u8>, data: Seq<u8>)
    requires
        (a + b).is_prefix_of(data),
    ensures
        data.subrange(a.len() as int, (a.len() + b.len()) as int) =~= b,
        a.is_prefix_of(data),
{
    let q = a + b;
    assert(q =~= data.subrange(0, q.len() as int));
    assert forall|k: int| 0 <= k < b.len() implies data.subrange(
        a.len() as int,
        (a.len() + b.len()) as int,
    )[k] == b[k] by {
        assert(q[a.len() + k] == b[k]);
        assert(data.subrange(0, q.len() as int)[a.len() + k] == data[a.len() + k]);
    }
    assert(data.subrange(0, a.len() as int) =~= a) by {
        assert forall|k: int| 0 <= k < a.len() implies data.subrange(0, a.len() as int)[k] == a[k] by {
            assert(q[k] == a[k]);
            assert(data.subrange(0, q.len() as int)[k] == data[k]);
        }
    }
}

/// An integer written in `n` bytes reads back as the same integer.
proof fn lemma_int_back(data: Seq<u8>, buf: Seq<u8>, n: int, x: int, is_signed: bool)
    requires
        n == 1 || n == 2 || n == 4 || n == 8,
        is_signed ==> -pow256(n as nat) <= 2 * x < pow256(n as nat),
        !is_signed ==> 0 <= x < pow256(n as nat),
        (pad_to(buf, n as nat) + le_bytes(twos(x, n as nat), n as nat)).is_prefix_of(data),
    ensures
        word(data, buf.len() as int, n) matches Ok((u, p)) && p == pad_to(buf, n as nat).len() + n
            && (if is_signed {
            signed(u, n as nat)
        } else {
            u as int
        }) == x,
        le_bytes(twos(x, n as nat), n as nat).len() == n,
{
    lemma_word_at(data, buf, n, twos(x, n as nat));
}

/// A write of `v` as `t` at the end of `buf` succeeds, and `data` starts
/// with what it wrote.
pub open spec fn written(
    reg: RegistrySpec,
    t: TypeSpec,
    v: Value,
    path: Seq<char>,
    label: Seq<char>,
    got: Seq<char>,
    buf: Seq<u8>,
    data: Seq<u8>,
) -> bool {
    &&& write_value(reg, t, v, path, label, got, buf) is Ok
    &&& write_value(reg, t, v, path, label, got, buf)->Ok_0.is_prefix_of(data)
}

/// Reading `t` where the write of `v` began gives [`decoded_of`] and ends
/// where the write ended.
pub open spec fn read_back(
    reg: RegistrySpec,
    t: TypeSpec,
    v: Value,
    path: Seq<char>,
    label: Seq<char>,
    got: Seq<char>,
    buf: Seq<u8>,
    data: Seq<u8>,
    chain: Seq<Seq<char>>,
) -> bool {
    read_value(reg, t, data, buf.len() as int, path, chain) == ReadSpec::Done(
        decoded_of(reg, t, v),
        write_value(reg, t, v, path, label, got, buf)->Ok_0.len() as int,
    )
}

/// A boolean reads back as itself.
proof fn lemma_bool_back(
    reg: RegistrySpec,
    t: TypeSpec,
    v: Value,
    path: Seq<char>,
    label: Seq<char>,
    got: Seq<char>,
    buf: Seq<u8>,
    data: Seq<u8>,
    chain: Seq<Seq<char>>,
)
    requires
        t is Bool,
        written(reg, t, v, path, label, got, buf, data),
    ensures
        read_back(reg, t, v, path, label, got, buf, data, chain),
{
    lemma_pow256_values();
    let byte: u8 = if v->Bool_0 {
        1
    } else {
        0
    };
    assert(le_bytes(byte as int, 1) =~= seq![byte]) by {
        reveal_with_fuel(le_bytes, 2);
    }
    assert(pad_to(buf, 1).push(byte) =~= pad_to(buf, 1) + le_bytes(byte as int, 1));
    lemma_word_at(data, buf, 1, byte as int);
}

/// An integer reads back as itself.
proof fn lemma_integer_back(
    reg: RegistrySpec,
    t: TypeSpec,
    v: Value,
    path: Seq<char>,
    label: Seq<char>,
    got: Seq<char>,
    buf: Seq<u8>,
    data: Seq<u8>,
    chain: Seq<Seq<char>>,
)
    requires
        t is Int8 || t is Int16 || t is Int32 || t is Int64 || t is UInt8 || t is UInt16
            || t is UInt32 || t is UInt64,
        written(reg, t, v, path, label, got, buf, data),
    ensures
        read_back(reg, t, v, path, label, got, buf, data, chain),
{
    lemma_pow256_values();
    let x = int_of(v)->Some_0;
    match t {
        TypeSpec::Int8 => lemma_int_back(data, buf, 1, x, true),
        TypeSpec::Int16 => lemma_int_back(data, buf, 2, x, true),
        TypeSpec::Int32 => lemma_int_back(data, buf, 4, x, true),
        TypeSpec::Int64 => lemma_int_back(data, buf, 8, x, true),
        TypeSpec::UInt8 => lemma_int_back(data, buf, 1, x, false),
        TypeSpec::UInt16 => lemma_int_back(data, buf, 2, x, false),
        TypeSpec::UInt32 => lemma_int_back(data, buf, 4, x, false),
        _ => lemma_int_back(data, buf, 8, x, false),
    }
}

/// A float reads back as the same bits.
proof fn lemma_float_back(
    reg: RegistrySpec,
    t: TypeSpec,
    v: Value,
    path: Seq<char>,
    label: Seq<char>,
    got: Seq<char>,
    buf: Seq<u8>,
    data: Seq<u8>,
    chain: Seq<Seq<char>>,
)
    requires
        t is Float32 || t is Float64,
        written(reg, t, v, path, label, got, buf, data),
    ensures
        read_back(reg, t, v, path, label, got, buf, data, chain),
{
    lemma_pow256_values();
    if t is Float32 {
        lemma_word_at(data, buf, 4, f32_bits_of(v)->Some_0 as int);
    } else {
        lemma_word_at(data, buf, 8, f64_bits_of(v)->Some_0 as int);
    }
}

/// A string whose encoding fits a four-byte count reads back as itself.
proof fn lemma_string_back(
    reg: RegistrySpec,
    t: TypeSpec,
    v: Value,
    path: Seq<char>,
    label: Seq<char>,
    got: Seq<char>,
    buf: Seq<u8>,
    data: Seq<u8>,
    chain: Seq<Seq<char>>,
)
    requires
        t is RosString,
        fits(reg, t, v),
        written(reg, t, v, path, label, got, buf, data),
    ensures
        read_back(reg, t, v, path, label, got, buf, data, chain),
{
    lemma_pow256_values();
    let out = write_value(reg, t, v, path, label, got, buf)->Ok_0;
    let s = v->Str_0;
    let bytes = encode_utf8(s@);
    let n: int = bytes.len() as int + 1;
    let first = pad_to(buf, 4) + le_bytes(n, 4);
    assert(((bytes.len() % 0x1_0000_0000) + 1) % 0x1_0000_0000 == n);
    assert(out =~= first + bytes.push(0u8));
    lemma_prefix_piece(first, bytes.push(0u8), data);
    lemma_word_at(data, buf, 4, n);
    crate::le::lemma_le_bytes_len(n, 4);
    vstd::utf8::encode_utf8_valid_utf8(s@);
    vstd::utf8::encode_utf8_decode_utf8(s@);
    let p = first.len() as int;
    assert(data.subrange(p, p + n).drop_last() =~= bytes);
}

/// A byte string whose length fits a four-byte count reads back as itself.
proof fn lemma_bytes_back(
    reg: RegistrySpec,
    t: TypeSpec,
    v: Value,
    path: Seq<char>,
    label: Seq<char>,
    got: Seq<char>,
    buf: Seq<u8>,
    data: Seq<u8>,
    chain: Seq<Seq<char>>,
)
    requires
        t is RosBytes,
        fits(reg, t, v),
        written(reg, t, v, path, label, got, buf, data),
    ensures
        read_back(reg, t, v, path, label, got, buf, data, chain),
{
    lemma_pow256_values();
    let out = write_value(reg, t, v, path, label, got, buf)->Ok_0;
    let b = v->Bytes_0;
    let first = pad_to(buf, 4) + length_word(b@.len());
    assert(out =~= first + b@);
    lemma_prefix_piece(first, b@, data);
    lemma_word_at(data, buf, 4, b@.len() as int);
    crate::le::lemma_le_bytes_len(b@.len() as int, 4);
}

/// A time or duration reads back as its two fields.
proof fn lemma_stamp_back(
    reg: RegistrySpec,
    t: TypeSpec,
    v: Value,
    path: Seq<char>,
    label: Seq<char>,
    got: Seq<char>,
    buf: Seq<u8>,
    data: Seq<u8>,
    chain: Seq<Seq<char>>,
)
    requires
        t is Time || t is Duration,
        written(reg, t, v, path, label, got, buf, data),
    ensures
        read_back(reg, t, v, path, label, got, buf, data, chain),
{
    lemma_pow256_values();
    let out = write_value(reg, t, v, path, label, got, buf)->Ok_0;
    let entries = v->Dict_0;
    lemma_find_key_from(entries@, "sec"@, 0);
    lemma_find_key_from(entries@, "nanosec"@, 0);
    let k = find_key(entries@, "sec"@)->Some_0;
    let k2 = find_key(entries@, "nanosec"@)->Some_0;
    let sec = int_of(entries@[k].1)->Some_0;
    let ns = int_of(entries@[k2].1)->Some_0;
    let b = pad_to(buf, 4);
    let first = b + le_bytes(twos(sec, 4), 4);
    crate::le::lemma_le_bytes_len(twos(sec, 4), 4);
    lemma_aligned_pad(buf, 4, out.len() as int);
    assert(pad_to(first, 4) == first);
    assert(out =~= first + le_bytes(ns, 4));
    lemma_prefix_piece(first, le_bytes(ns, 4), data);
    lemma_int_back(data, buf, 4, sec, true);
    lemma_word_at(data, first, 4, ns);
}

/// Reading back what a successful write wrote gives the value, as
/// [`decoded_of`] says, and ends where the write ended. `chain` holds schemas
/// that the write does not enter before its first byte.
proof fn lemma_read_back(
    reg: RegistrySpec,
    t: TypeSpec,
    v: Value,
    path: Seq<char>,
    label: Seq<char>,
    got: Seq<char>,
    buf: Seq<u8>,
    data: Seq<u8>,
    chain: Seq<Seq<char>>,
)
    requires
        reg.dom().finite(),
        fits(reg, t, v),
        written(reg, t, v, path, label, got, buf, data),
        forall|x: Seq<char>|
            #![trigger chain.contains(x)]
            chain.contains(x) ==> !entered(reg, t, v, path, label, got, buf).contains(x),
    ensures
        read_back(reg, t, v, path, label, got, buf, data, chain),
    decreases v, 2nat, 0int,
{
    match t {
        TypeSpec::Bool => lemma_bool_back(reg, t, v, path, label, got, buf, data, chain),
        TypeSpec::Float32 | TypeSpec::Float64 => lemma_float_back(
            reg,
            t,
            v,
            path,
            label,
            got,
            buf,
            data,
            chain,
        ),
        TypeSpec::RosString => lemma_string_back(reg, t, v, path, label, got, buf, data, chain),
        TypeSpec::RosBytes => lemma_bytes_back(reg, t, v, path, label, got, buf, data, chain),
        TypeSpec::Time | TypeSpec::Duration => lemma_stamp_back(
            reg,
            t,
            v,
            path,
            label,
            got,
            buf,
            data,
            chain,
        ),
        TypeSpec::Array(inner) => lemma_array_back(reg, t, v, path, label, got, buf, data, chain),
        TypeSpec::Struct(n) => lemma_struct_back(reg, t, v, path, label, got, buf, data, chain),
        _ => lemma_integer_back(reg, t, v, path, label, got, buf, data, chain),
    }
}

/// An array whose length fits a four-byte count reads back item by item.
proof fn lemma_array_back(
    reg: RegistrySpec,
    t: TypeSpec,
    v: Value,
    path: Seq<char>,
    label: Seq<char>,
    got: Seq<char>,
    buf: Seq<u8>,
    data: Seq<u8>,
    chain: Seq<Seq<char>>,
)
    requires
        t is Array,
        reg.dom().finite(),
        fits(reg, t, v),
        written(reg, t, v, path, label, got, buf, data),
    ensures
        read_back(reg, t, v, path, label, got, buf, data, chain),
    decreases v, 1nat, 0int,
{
    lemma_pow256_values();
    let inner = *t->Array_0;
    let out = write_value(reg, t, v, path, label, got, buf)->Ok_0;
    let items = v->List_0;
    let start = pad_to(buf, 4) + length_word(items@.len());
    lemma_items_append(reg, inner, v, 0, path, start);
    lemma_prefix_trans(start, out, data);
    lemma_word_at(data, buf, 4, items@.len() as int);
    crate::le::lemma_le_bytes_len(items@.len() as int, 4);
    lemma_read_items(reg, inner, v, 0, path, start, data, Seq::empty());
}

/// A structure reads back field by field, where the chain holds no schema
/// that the write enters before its first byte.
proof fn lemma_struct_back(
    reg: RegistrySpec,
    t: TypeSpec,
    v: Value,
    path: Seq<char>,
    label: Seq<char>,
    got: Seq<char>,
    buf: Seq<u8>,
    data: Seq<u8>,
    chain: Seq<Seq<char>>,
)
    requires
        t is Struct,
        reg.dom().finite(),
        fits(reg, t, v),
        written(reg, t, v, path, label, got, buf, data),
        forall|x: Seq<char>|
            #![trigger chain.contains(x)]
            chain.contains(x) ==> !entered(reg, t, v, path, label, got, buf).contains(x),
    ensures
        read_back(reg, t, v, path, label, got, buf, data, chain),
    decreases v, 1nat, 0int,
{
    let n = t->Struct_0;
    lemma_no_reentry(reg, n, v, path, label, got, buf);
    let c = chain.push(n);
    assert forall|x: Seq<char>| #![trigger c.contains(x)] c.contains(x) implies !entered_fields(
        reg,
        reg[n],
        v,
        0,
        path,
        label,
        got,
        buf,
    ).contains(x) by {
        if x != n {
            let j = choose|j: int| 0 <= j < c.len() && c[j] == x;
            assert(chain[j] == x);
            assert(chain.contains(x));
        }
    }
    assert(chain.contains(n) ==> false) by {
        if chain.contains(n) {
            assert(entered(reg, t, v, path, label, got, buf).contains(n));
        }
    }
    lemma_read_fields(
        reg,
        reg[n],
        v,
        0,
        path,
        label,
        got,
        buf,
        data,
        c,
        buf.len() as int,
        Seq::empty(),
    );
}

proof fn lemma_read_items(
    reg: RegistrySpec,
    inner: TypeSpec,
    list: Value,
    j: int,
    path: Seq<char>,
    b: Seq<u8>,
    data: Seq<u8>,
    acc: Seq<DecodedSpec>,
)
    requires
        reg.dom().finite(),
        list is List,
        fits_items(reg, inner, list, j),
        0 <= j <= list->List_0@.len(),
        write_items(reg, inner, list, j, path, b) is Ok,
        write_items(reg, inner, list, j, path, b)->Ok_0.is_prefix_of(data),
    ensures
        read_items(reg, inner, (list->List_0@.len() - j) as nat, data, b.len() as int, path, acc)
            == ReadSpec::Done(
            DecodedSpec::List(decoded_items(reg, inner, list, j, acc)),
            write_items(reg, inner, list, j, path, b)->Ok_0.len() as int,
        ),
    decreases list, 0nat, list->List_0@.len() - j,
{
    let items = list->List_0;
    if j < items@.len() {
        let item = items@[j];
        let b1 = write_value(reg, inner, item, path, path, kind_name(item), b)->Ok_0;
        lemma_items_append(reg, inner, list, j + 1, path, b1);
        lemma_write_appends(reg, inner, item, path, path, kind_name(item), b);
        let out = write_items(reg, inner, list, j + 1, path, b1)->Ok_0;
        lemma_prefix_trans(b1, out, data);
        lemma_read_back(reg, inner, item, path, path, kind_name(item), b, data, Seq::empty());
        lemma_read_items(reg, inner, list, j + 1, path, b1, data, acc.push(decoded_of(reg, inner, item)));
    }
}

proof fn lemma_read_fields(
    reg: RegistrySpec,
    schema: SchemaSpec,
    d: Value,
    i: int,
    path: Seq<char>,
    label: Seq<char>,
    got: Seq<char>,
    b: Seq<u8>,
    data: Seq<u8>,
    chain: Seq<Seq<char>>,
    start: int,
    acc: Seq<(Seq<char>, DecodedSpec)>,
)
    requires
        reg.dom().finite(),
        d is Dict,
        fits_fields(reg, schema, d, i),
        0 <= i,
        write_fields(reg, schema, d, i, path, label, got, b) is Ok,
        write_fields(reg, schema, d, i, path, label, got, b)->Ok_0.is_prefix_of(data),
        start <= b.len(),
        b.len() == start ==> forall|x: Seq<char>|
            #![trigger chain.contains(x)]
            chain.contains(x) ==> !entered_fields(reg, schema, d, i, path, label, got, b).contains(x),
    ensures
        read_fields(reg, schema, i, data, b.len() as int, path, chain, start, acc) == ReadSpec::Done(
            DecodedSpec::Dict(decoded_fields(reg, schema, d, i, acc)),
            write_fields(reg, schema, d, i, path, label, got, b)->Ok_0.len() as int,
        ),
    decreases d, 0nat, if i < schema.len() { schema.len() - i } else { 0 },
{
    if i < schema.len() {
        let entries = d->Dict_0;
        let fname = schema[i].0;
        lemma_find_key_from(entries@, fname, 0);
        let k = find_key(entries@, fname)->Some_0;
        let w = entries@[k].1;
        let sub = path + "."@ + fname;
        let b1 = write_value(reg, schema[i].1, w, sub, label, got, b)->Ok_0;
        lemma_write_appends(reg, schema[i].1, w, sub, label, got, b);
        lemma_fields_append(reg, schema, d, i + 1, path, label, got, b1);
        let out = write_fields(reg, schema, d, i + 1, path, label, got, b1)->Ok_0;
        lemma_prefix_trans(b1, out, data);
        let inner_chain = if b.len() == start {
            chain
        } else {
            Seq::empty()
        };
        lemma_read_back(reg, schema[i].1, w, sub, label, got, b, data, inner_chain);
        if b1.len() == start {
            assert(b1 =~= b);
        }
        lemma_read_fields(
            reg,
            schema,
            d,
            i + 1,
            path,
            label,
            got,
            b1,
            data,
            chain,
            start,
            dict_insert(acc, fname, decoded_of(reg, schema[i].1, w)),
        );
    }
}

/// The message read back for the fields of `schema` from position `i` on,
/// each taken by name from `values`, after the entries `acc`.
pub open spec fn decoded_message(
    reg: RegistrySpec,
    schema: SchemaSpec,
    values: Seq<(String, Value)>,
    i: int,
    acc: Seq<(Seq<char>, DecodedSpec)>,
) -> Seq<(Seq<char>, DecodedSpec)>
    decreases if i < schema.len() { schema.len() - i } else { 0 },
{
    if 0 <= i < schema.len() {
        let fname = schema[i].0;
        match find_key(values, fname) {
            Some(k) => {
                proof {
                    lemma_find_key_from(values, fname, 0);
                }
                decoded_message(
                    reg,
                    schema,
                    values,
                    i + 1,
                    dict_insert(acc, fname, decoded_of(reg, schema[i].1, values[k].1)),
                )
            },
            None => acc,
        }
    } else {
        acc
    }
}

proof fn lemma_read_message(
    reg: RegistrySpec,
    schema: SchemaSpec,
    values: Seq<(String, Value)>,
    i: int,
    b: Seq<u8>,
    data: Seq<u8>,
    acc: Seq<(Seq<char>, DecodedSpec)>,
)
    requires
        reg.dom().finite(),
        fits_message(reg, schema, values, i),
        0 <= i,
        write_message(reg, schema, values, i, b) is Ok,
        write_message(reg, schema, values, i, b)->Ok_0.is_prefix_of(data),
    ensures
        read_message(reg, schema, i, data, b.len() as int, acc) == Some(
            Ok::<Seq<(Seq<char>, DecodedSpec)>, ErrorSpec>(
                decoded_message(reg, schema, values, i, acc),
            ),
        ),
    decreases if i < schema.len() { schema.len() - i } else { 0 },
{
    if i < schema.len() {
        let fname = schema[i].0;
        lemma_find_key_from(values, fname, 0);
        let k = find_key(values, fname)->Some_0;
        let w = values[k].1;
        let b1 = write_value(reg, schema[i].1, w, fname, fname, kind_name(w), b)->Ok_0;
        lemma_write_appends(reg, schema[i].1, w, fname, fname, kind_name(w), b);
        lemma_message_appends(reg, schema, values, i + 1, b1);
        let out = write_message(reg, schema, values, i + 1, b1)->Ok_0;
        lemma_prefix_trans(b1, out, data);
        lemma_read_back(reg, schema[i].1, w, fname, fname, kind_name(w), b, data, Seq::empty());
        lemma_read_message(
            reg,
            schema,
            values,
            i + 1,
            b1,
            data,
            dict_insert(acc, fname, decoded_of(reg, schema[i].1, w)),
        );
    }
}

proof fn lemma_message_appends(
    reg: RegistrySpec,
    schema: SchemaSpec,
    values: Seq<(String, Value)>,
    i: int,
    buf: Seq<u8>,
)
    ensures
        write_message(reg, schema, values, i, buf) matches Ok(out) ==> out.len() >= buf.len()
            && out.subrange(0, buf.len() as int) =~= buf,
    decreases if i < schema.len() { schema.len() - i } else { 0 },
{
    if 0 <= i < schema.len() {
        let fname = schema[i].0;
        lemma_find_key_from(values, fname, 0);
        if let Some(k) = find_key(values, fname) {
            let w = values[k].1;
            lemma_write_appends(reg, schema[i].1, w, fname, fname, kind_name(w), buf);
            if let Ok(b) = write_value(reg, schema[i].1, w, fname, fname, kind_name(w), buf) {
                lemma_message_appends(reg, schema, values, i + 1, b);
                if let Ok(out) = write_message(reg, schema, values, i + 1, b) {
                    assert(out.subrange(0, buf.len() as int) =~= out.subrange(0, b.len() as int).subrange(0, buf.len() as int));
                }
            }
        }
    }
}

/// Reading back a serialized message gives its values: where serializing
/// `values` under the schema registered as `name` succeeds, and every string,
/// byte string and list that it writes fits the four-byte CDR counts
/// (see [`fits`]), deserializing
/// the payload under that schema gives, for each field of the schema in
/// order, the value taken from `values` by the field's name, as
/// [`decoded_of`] reads it back.
pub proof fn law_serialize_deserialize_roundtrip(
    registry: SchemaRegistry,
    name: Seq<char>,
    values: Seq<(String, Value)>,
)
    requires
        serialize_spec(registry@, name, values) is Ok,
        fits_message(registry@, registry@[name], values, 0),
    ensures
        deserialize_spec(registry@, name, serialize_spec(registry@, name, values)->Ok_0) == Some(
            Ok::<Seq<(Seq<char>, DecodedSpec)>, CallErrorSpec>(
                decoded_message(registry@, registry@[name], values, 0, Seq::empty()),
            ),
        ),
{
    registry.lemma_finite();
    let reg = registry@;
    let body = write_message(reg, reg[name], values, 0, Seq::empty())->Ok_0;
    let data = cdr_le_header() + body;
    assert(data.subrange(4, data.len() as int) =~= body);
    assert(body.is_prefix_of(body));
    lemma_read_message(reg, reg[name], values, 0, Seq::empty(), body, Seq::empty());
}

/// Every successful payload starts with the little-endian CDR encapsulation
/// header.
pub proof fn law_payload_starts_with_header(
    reg: RegistrySpec,
    name: Seq<char>,
    values: Seq<(String, Value)>,
)
    requires
        serialize_spec(reg, name, values) is Ok,
    ensures
        cdr_le_header().is_prefix_of(serialize_spec(reg, name, values)->Ok_0),
{
    let data = serialize_spec(reg, name, values)->Ok_0;
    assert(data.subrange(0, 4) =~= cdr_le_header());
}

/// Whether a definition entry is a sequence of two strings: `pair`'s field
/// name and type name.
pub open spec fn lists_field(item: SchemaItem, pair: (Seq<char>, Seq<char>)) -> bool {
    match item {
        SchemaItem::Sequence(parts) => parts@.len() == 2 && match (parts@[0], parts@[1]) {
            (Ok(a), Ok(b)) => a@ == pair.0 && b@ == pair.1,
            _ => false,
        },
        SchemaItem::Other => false,
    }
}

/// Whether `items` are the definition entries that give `listing` back, one
/// per field.
pub open spec fn lists(items: Seq<SchemaItem>, listing: Seq<(Seq<char>, Seq<char>)>) -> bool {
    &&& items.len() == listing.len()
    &&& forall|j: int| 0 <= j < items.len() ==> lists_field(#[trigger] items[j], listing[j])
}

/// The listing of a schema registers the same schema again: definition
/// entries made of the field names and type names that the registry lists
/// for a schema define that very schema, where every structure name in it is
/// non-empty and free of surrounding white space.
pub proof fn law_listing_defines_same_schema(s: SchemaSpec, items: Seq<SchemaItem>)
    requires
        forall|j: int| 0 <= j < s.len() ==> names_canonical(#[trigger] s[j].1),
        lists(items, schema_listing(s)),
    ensures
        schema_from_items(items, items.len() as int) == Ok::<SchemaSpec, ErrorSpec>(s),
{
    lemma_listing_prefix(s, items, items.len() as int);
    assert(s.subrange(0, s.len() as int) =~= s);
}

proof fn lemma_listing_prefix(s: SchemaSpec, items: Seq<SchemaItem>, n: int)
    requires
        forall|j: int| 0 <= j < s.len() ==> names_canonical(#[trigger] s[j].1),
        lists(items, schema_listing(s)),
        0 <= n <= items.len(),
    ensures
        schema_from_items(items, n) == Ok::<SchemaSpec, ErrorSpec>(s.subrange(0, n)),
    decreases n,
{
    if n == 0 {
        assert(s.subrange(0, 0) =~= Seq::<FieldSpec>::empty());
    } else {
        lemma_listing_prefix(s, items, n - 1);
        let j = n - 1;
        assert(names_canonical(s[j].1));
        law_type_name_roundtrip(s[j].1);
        assert(schema_listing(s)[j] == (s[j].0, name_of_type(s[j].1)));
        assert(lists_field(items[j], schema_listing(s)[j]));
        assert(field_from_item(items[j]) == Ok::<FieldSpec, ErrorSpec>(s[j]));
        assert(s.subrange(0, n - 1).push(s[j]) =~= s.subrange(0, n));
    }
}

/// Registering a schema under a free name makes the name known, with that
/// schema, and leaves every other name as it was; a second registration
/// under the name then finds it taken.
pub proof fn law_register_then_lookup(reg: RegistrySpec, name: Seq<char>, s: SchemaSpec)
    requires
        !reg.contains_key(name),
    ensures
        reg.insert(name, s).contains_key(name),
        reg.insert(name, s)[name] == s,
        forall|other: Seq<char>|
            other != name ==> (#[trigger] reg.insert(name, s).contains_key(other)
                == reg.contains_key(other)),
        forall|other: Seq<char>|
            other != name && reg.contains_key(other) ==> #[trigger] reg.insert(name, s)[other]
                == reg[other],
{
}

/// Unregistering a schema just registered gives back the registry as it was
/// before.
pub proof fn law_unregister_undoes_register(reg: RegistrySpec, name: Seq<char>, s: SchemaSpec)
    requires
        !reg.contains_key(name),
    ensures
        reg.insert(name, s).remove(name) == reg,
{
    assert(reg.insert(name, s).remove(name) =~= reg);
}

/// A single value reads back as itself: where writing `v` as `t` at the end
/// of `buf` succeeds, the counts it writes fit (see [`fits`]), and `data`
/// starts with what was written, reading `t` from `data` where the write
/// began gives [`decoded_of`] and ends where the write ended.
pub proof fn law_value_reads_back(
    registry: SchemaRegistry,
    t: TypeSpec,
    v: Value,
    path: Seq<char>,
    label: Seq<char>,
    got: Seq<char>,
    buf: Seq<u8>,
    data: Seq<u8>,
)
    requires
        fits(registry@, t, v),
        written(registry@, t, v, path, label, got, buf, data),
    ensures
        read_back(registry@, t, v, path, label, got, buf, data, Seq::empty()),
{
    registry.lemma_finite();
    lemma_read_back(registry@, t, v, path, label, got, buf, data, Seq::empty());
}

/// The errors that reading can fail with: a truncated or malformed stream,
/// or a structure whose schema is not registered.
pub open spec fn read_error(e: ErrorSpec) -> bool {
    e is DeserializationError || e is UnknownSchema
}

/// Reading a value fails only with a [`read_error`], wherever it starts
/// and whatever the bytes are.
pub proof fn law_read_errors(
    reg: RegistrySpec,
    t: TypeSpec,
    data: Seq<u8>,
    pos: int,
    path: Seq<char>,
    chain: Seq<Seq<char>>,
)
    ensures
        read_value(reg, t, data, pos, path, chain) matches ReadSpec::Fail(e) ==> read_error(e),
    decreases left(data, pos), unvisited(reg, chain), 1nat, 0int,
{
    match t {
        TypeSpec::Array(inner) => {
            if let Ok((n, p)) = word(data, pos, 4) {
                lemma_word_bounds(data, pos, 4);
                lemma_items_errors(reg, *inner, n, data, p, path, Seq::empty());
            }
        },
        TypeSpec::Struct(name) => {
            if reg.contains_key(name) && !chain.contains(name) && reg.dom().finite() {
                lemma_unvisited_step(reg, chain, name);
                lemma_fields_errors(
                    reg,
                    reg[name],
                    0,
                    data,
                    pos,
                    path,
                    chain.push(name),
                    pos,
                    Seq::empty(),
                );
            }
        },
        _ => {},
    }
}

proof fn lemma_items_errors(
    reg: RegistrySpec,
    inner: TypeSpec,
    count: nat,
    data: Seq<u8>,
    pos: int,
    path: Seq<char>,
    acc: Seq<DecodedSpec>,
)
    ensures
        read_items(reg, inner, count, data, pos, path, acc) matches ReadSpec::Fail(e) ==> read_error(
            e,
        ),
    decreases left(data, pos), unvisited(reg, Seq::empty()) + 1, 0nat, count,
{
    if count > 0 {
        law_read_errors(reg, inner, data, pos, path, Seq::empty());
        if let ReadSpec::Done(d, p) = read_value(reg, inner, data, pos, path, Seq::empty()) {
            if !(p < pos || p > data.len()) {
                lemma_items_errors(reg, inner, (count - 1) as nat, data, p, path, acc.push(d));
            }
        }
    }
}

proof fn lemma_fields_errors(
    reg: RegistrySpec,
    schema: SchemaSpec,
    i: int,
    data: Seq<u8>,
    pos: int,
    path: Seq<char>,
    chain: Seq<Seq<char>>,
    start: int,
    acc: Seq<(Seq<char>, DecodedSpec)>,
)
    ensures
        read_fields(reg, schema, i, data, pos, path, chain, start, acc) matches ReadSpec::Fail(e)
            ==> read_error(e),
    decreases left(data, pos), if pos == start {
        unvisited(reg, chain) + 1
    } else {
        unvisited(reg, Seq::empty()) + 1
    }, 0nat, if i < schema.len() { schema.len() - i } else { 0 },
{
    if 0 <= i < schema.len() {
        let fname = schema[i].0;
        let inner_chain = if pos == start {
            chain
        } else {
            Seq::empty()
        };
        lemma_unvisited_bound(reg, chain);
        law_read_errors(reg, schema[i].1, data, pos, path + "."@ + fname, inner_chain);
        if let ReadSpec::Done(d, p) = read_value(
            reg,
            schema[i].1,
            data,
            pos,
            path + "."@ + fname,
            inner_chain,
        ) {
            if !(p < pos || p > data.len()) {
                lemma_fields_errors(
                    reg,
                    schema,
                    i + 1,
                    data,
                    p,
                    path,
                    chain,
                    start,
                    dict_insert(acc, fname, d),
                );
            }
        }
    }
}

proof fn lemma_message_errors(
    reg: RegistrySpec,
    schema: SchemaSpec,
    i: int,
    data: Seq<u8>,
    pos: int,
    acc: Seq<(Seq<char>, DecodedSpec)>,
)
    ensures
        read_message(reg, schema, i, data, pos, acc) matches Some(Err(e)) ==> read_error(e),
    decreases if i < schema.len() { schema.len() - i } else { 0 },
{
    if 0 <= i < schema.len() {
        let fname = schema[i].0;
        law_read_errors(reg, schema[i].1, data, pos, fname, Seq::empty());
        if let ReadSpec::Done(d, p) = read_value(reg, schema[i].1, data, pos, fname, Seq::empty()) {
            lemma_message_errors(reg, schema, i + 1, data, p, dict_insert(acc, fname, d));
        }
    }
}

/// Deserializing fails, past the header check, only with a [`read_error`].
pub proof fn law_deserialize_errors(reg: RegistrySpec, name: Seq<char>, data: Seq<u8>)
    ensures
        deserialize_spec(reg, name, data) matches Some(Err(CallErrorSpec::Message(e))) ==> read_error(
            e,
        ),
{
    if reg.contains_key(name) && data.len() >= 4 {
        lemma_message_errors(reg, reg[name], 0, data.subrange(4, data.len() as int), 0, Seq::empty());
    }
}

/// A word read from `data` is read the same from `data` with more bytes
/// after it.
proof fn lemma_word_extends(data: Seq<u8>, extra: Seq<u8>, pos: int, n: int)
    requires
        n > 0,
        0 <= pos,
        word(data, pos, n) is Ok,
    ensures
        word(data + extra, pos, n) == word(data, pos, n),
        word(data, pos, n)->Ok_0.1 >= pos + n,
{
    lemma_word_bounds(data, pos, n);
    let p = aligned(data.len() as int, pos, n)->Ok_0;
    assert((data + extra).subrange(p, p + n) =~= data.subrange(p, p + n));
}

/// Bytes after a value do not change how it reads: where reading `t` from
/// `data` at a position `pos` gives a value, reading it from `data` followed by `extra`
/// gives the same value, ending at the same position, which is not before
/// `pos`.
pub proof fn law_trailing_bytes_ignored(
    reg: RegistrySpec,
    t: TypeSpec,
    data: Seq<u8>,
    extra: Seq<u8>,
    pos: int,
    path: Seq<char>,
    chain: Seq<Seq<char>>,
)
    requires
        0 <= pos,
        read_value(reg, t, data, pos, path, chain) is Done,
    ensures
        read_value(reg, t, data + extra, pos, path, chain) == read_value(
            reg,
            t,
            data,
            pos,
            path,
            chain,
        ),
        read_value(reg, t, data, pos, path, chain)->Done_1 >= pos,
    decreases left(data, pos), unvisited(reg, chain), 1nat, 0int,
{
    let d2 = data + extra;
    match t {
        TypeSpec::Bool | TypeSpec::Int8 | TypeSpec::UInt8 => lemma_word_extends(data, extra, pos, 1),
        TypeSpec::Int16 | TypeSpec::UInt16 => lemma_word_extends(data, extra, pos, 2),
        TypeSpec::Int32 | TypeSpec::UInt32 | TypeSpec::Float32 => lemma_word_extends(
            data,
            extra,
            pos,
            4,
        ),
        TypeSpec::Int64 | TypeSpec::UInt64 | TypeSpec::Float64 => lemma_word_extends(
            data,
            extra,
            pos,
            8,
        ),
        TypeSpec::RosString | TypeSpec::RosBytes => {
            lemma_word_extends(data, extra, pos, 4);
            lemma_word_bounds(data, pos, 4);
            let (n, p) = word(data, pos, 4)->Ok_0;
            assert(d2.subrange(p, p + n) =~= data.subrange(p, p + n));
        },
        TypeSpec::Time | TypeSpec::Duration => {
            lemma_word_extends(data, extra, pos, 4);
            lemma_word_bounds(data, pos, 4);
            let (sec, p) = word(data, pos, 4)->Ok_0;
            lemma_word_extends(data, extra, p, 4);
        },
        TypeSpec::Array(inner) => {
            lemma_word_extends(data, extra, pos, 4);
            let (n, p) = word(data, pos, 4)->Ok_0;
            lemma_word_bounds(data, pos, 4);
            lemma_items_extend(reg, *inner, n, data, extra, p, path, Seq::empty());
        },
        TypeSpec::Struct(name) => {
            lemma_unvisited_step(reg, chain, name);
            lemma_fields_extend(
                reg,
                reg[name],
                0,
                data,
                extra,
                pos,
                path,
                chain.push(name),
                pos,
                Seq::empty(),
            );
        },
    }
}

proof fn lemma_items_extend(
    reg: RegistrySpec,
    inner: TypeSpec,
    count: nat,
    data: Seq<u8>,
    extra: Seq<u8>,
    pos: int,
    path: Seq<char>,
    acc: Seq<DecodedSpec>,
)
    requires
        0 <= pos,
        read_items(reg, inner, count, data, pos, path, acc) is Done,
    ensures
        read_items(reg, inner, count, data + extra, pos, path, acc) == read_items(
            reg,
            inner,
            count,
            data,
            pos,
            path,
            acc,
        ),
        read_items(reg, inner, count, data, pos, path, acc)->Done_1 >= pos,
    decreases left(data, pos), unvisited(reg, Seq::empty()) + 1, 0nat, count,
{
    if count > 0 {
        law_trailing_bytes_ignored(reg, inner, data, extra, pos, path, Seq::empty());
        let r = read_value(reg, inner, data, pos, path, Seq::empty());
        let d = r->Done_0;
        let p = r->Done_1;
        lemma_items_extend(reg, inner, (count - 1) as nat, data, extra, p, path, acc.push(d));
    }
}

proof fn lemma_fields_extend(
    reg: RegistrySpec,
    schema: SchemaSpec,
    i: int,
    data: Seq<u8>,
    extra: Seq<u8>,
    pos: int,
    path: Seq<char>,
    chain: Seq<Seq<char>>,
    start: int,
    acc: Seq<(Seq<char>, DecodedSpec)>,
)
    requires
        0 <= pos,
        read_fields(reg, schema, i, data, pos, path, chain, start, acc) is Done,
    ensures
        read_fields(reg, schema, i, data + extra, pos, path, chain, start, acc) == read_fields(
            reg,
            schema,
            i,
            data,
            pos,
            path,
            chain,
            start,
            acc,
        ),
        read_fields(reg, schema, i, data, pos, path, chain, start, acc)->Done_1 >= pos,
    decreases left(data, pos), if pos == start {
        unvisited(reg, chain) + 1
    } else {
        unvisited(reg, Seq::empty()) + 1
    }, 0nat, if i < schema.len() { schema.len() - i } else { 0 },
{
    if 0 <= i < schema.len() {
        let fname = schema[i].0;
        let inner_chain = if pos == start {
            chain
        } else {
            Seq::empty()
        };
        lemma_unvisited_bound(reg, chain);
        law_trailing_bytes_ignored(reg, schema[i].1, data, extra, pos, path + "."@ + fname, inner_chain);
        let r = read_value(reg, schema[i].1, data, pos, path + "."@ + fname, inner_chain);
        let d = r->Done_0;
        let p = r->Done_1;
        lemma_fields_extend(
            reg,
            schema,
            i + 1,
            data,
            extra,
            p,
            path,
            chain,
            start,
            dict_insert(acc, fname, d),
        );
    }
}

proof fn lemma_message_extend(
    reg: RegistrySpec,
    schema: SchemaSpec,
    i: int,
    data: Seq<u8>,
    extra: Seq<u8>,
    pos: int,
    acc: Seq<(Seq<char>, DecodedSpec)>,
)
    requires
        0 <= pos,
        read_message(reg, schema, i, data, pos, acc) matches Some(Ok(_)),
    ensures
        read_message(reg, schema, i, data + extra, pos, acc) == read_message(
            reg,
            schema,
            i,
            data,
            pos,
            acc,
        ),
    decreases if i < schema.len() { schema.len() - i } else { 0 },
{
    if 0 <= i < schema.len() {
        let fname = schema[i].0;
        law_trailing_bytes_ignored(reg, schema[i].1, data, extra, pos, fname, Seq::empty());
        let r = read_value(reg, schema[i].1, data, pos, fname, Seq::empty());
        let d = r->Done_0;
        let p = r->Done_1;
        lemma_message_extend(reg, schema, i + 1, data, extra, p, dict_insert(acc, fname, d));
    }
}

/// Bytes after the last field of a message are ignored: where `data`
/// deserializes to a message, `data` followed by any bytes deserializes to the
/// same message.
pub proof fn law_trailing_payload_ignored(
    reg: RegistrySpec,
    name: Seq<char>,
    data: Seq<u8>,
    extra: Seq<u8>,
)
    requires
        deserialize_spec(reg, name, data) matches Some(Ok(_)),
    ensures
        deserialize_spec(reg, name, data + extra) == deserialize_spec(reg, name, data),
{
    let d2 = data + extra;
    assert(d2[0] == data[0] && d2[1] == data[1]);
    let body = data.subrange(4, data.len() as int);
    assert(d2.subrange(4, d2.len() as int) =~= body + extra);
    lemma_message_extend(reg, reg[name], 0, body, extra, 0, Seq::empty());
}

/// The alignment that a write of type `t` pads to before its first byte:
/// that of the value itself for a number, a string or a byte string, four
/// bytes for an array (its count) and for a time or duration; 0 for a
/// structure, which only its fields pad.
pub open spec fn lead_align(t: TypeSpec) -> nat {
    match t {
        TypeSpec::Array(_) | TypeSpec::Time | TypeSpec::Duration => 4,
        _ => scalar_align(t),
    }
}

/// Padding to `align` appends zero bytes, fewer than `align`, up to the next
/// multiple of `align`.
pub proof fn law_padding(buf: Seq<u8>, align: nat)
    requires
        align > 0,
    ensures
        buf.is_prefix_of(pad_to(buf, align)),
        pad_to(buf, align).len() < buf.len() + align,
        pad_to(buf, align).len() % align == 0,
        forall|k: int| buf.len() <= k < pad_to(buf, align).len() ==> pad_to(buf, align)[k] == 0,
{
    lemma_pad_grows(buf, align);
    let x = buf.len() as int;
    let a = align as int;
    let r = x % a;
    if r != 0 {
        assert((x + (a - r)) % a == 0) by (nonlinear_arith)
            requires
                a > 0,
                r == x % a,
        {
            assert(x == a * (x / a) + r);
            assert(x + (a - r) == a * (x / a + 1));
        }
    }
}

/// A write only appends, and begins with its padding: a successful write of
/// `v` as a type that pads (see [`lead_align`]) keeps `buf` as a prefix and
/// then holds zero bytes, fewer than the alignment, up to a multiple of it,
/// before the bytes of the value, of which there is at least one.
pub proof fn law_write_pads_then_appends(
    reg: RegistrySpec,
    t: TypeSpec,
    v: Value,
    path: Seq<char>,
    label: Seq<char>,
    got: Seq<char>,
    buf: Seq<u8>,
)
    requires
        lead_align(t) > 0,
        write_value(reg, t, v, path, label, got, buf) is Ok,
    ensures
        buf.is_prefix_of(write_value(reg, t, v, path, label, got, buf)->Ok_0),
        pad_to(buf, lead_align(t)).is_prefix_of(write_value(reg, t, v, path, label, got, buf)->Ok_0),
        pad_to(buf, lead_align(t)).len() < write_value(reg, t, v, path, label, got, buf)->Ok_0.len(),
        pad_to(buf, lead_align(t)).len() < buf.len() + lead_align(t),
        pad_to(buf, lead_align(t)).len() % lead_align(t) == 0,
        forall|k: int|
            buf.len() <= k < pad_to(buf, lead_align(t)).len() ==> write_value(
                reg,
                t,
                v,
                path,
                label,
                got,
                buf,
            )->Ok_0[k] == 0,
{
    let a = lead_align(t);
    let out = write_value(reg, t, v, path, label, got, buf)->Ok_0;
    let p = pad_to(buf, a);
    law_padding(buf, a);
    lemma_write_appends(reg, t, v, path, label, got, buf);
    lemma_pow256_values();
    match t {
        TypeSpec::Bool => {
            assert(out =~= p + seq![out.last()]);
        },
        TypeSpec::Float32 => crate::le::lemma_le_bytes_len(f32_bits_of(v)->Some_0 as int, 4),
        TypeSpec::Float64 => crate::le::lemma_le_bytes_len(f64_bits_of(v)->Some_0 as int, 8),
        TypeSpec::RosString => {
            let bytes = encode_utf8(v->Str_0@);
            crate::le::lemma_le_bytes_len(
                (((bytes.len() % 0x1_0000_0000) + 1) % 0x1_0000_0000) as int,
                4,
            );
            assert(out =~= p + (le_bytes(
                (((bytes.len() % 0x1_0000_0000) + 1) % 0x1_0000_0000) as int,
                4,
            ) + bytes.push(0u8)));
        },
        TypeSpec::RosBytes => {
            let b = v->Bytes_0;
            crate::le::lemma_le_bytes_len((b@.len() % 0x1_0000_0000) as int, 4);
            assert(out =~= p + (length_word(b@.len()) + b@));
        },
        TypeSpec::Array(inner) => {
            let items = v->List_0;
            let start = p + length_word(items@.len());
            crate::le::lemma_le_bytes_len((items@.len() % 0x1_0000_0000) as int, 4);
            lemma_items_append(reg, *inner, v, 0, path, start);
            assert(p =~= start.subrange(0, p.len() as int));
            lemma_prefix_trans(p, start, out);
        },
        TypeSpec::Time | TypeSpec::Duration => {
            let entries = v->Dict_0;
            let k = find_key(entries@, "sec"@)->Some_0;
            let sec = int_of(entries@[k].1)->Some_0;
            crate::le::lemma_le_bytes_len(twos(sec, 4), 4);
            let first = p + le_bytes(twos(sec, 4), 4);
            assert(p =~= first.subrange(0, p.len() as int));
            lemma_prefix_trans(p, first, out);
        },
        _ => {
            let x = int_of(v)->Some_0;
            crate::le::lemma_le_bytes_len(twos(x, a), a);
            assert(out =~= p + le_bytes(twos(x, a), a));
        },
    }
    assert(buf.is_prefix_of(out));
    assert forall|k: int| buf.len() <= k < p.len() implies out[k] == 0 by {
        assert(out.subrange(0, p.len() as int)[k] == out[k]);
        assert(p[k] == 0);
    }
}

/// The value that the message entries `values` give the field `name`: that
/// of the first entry with that key, if there is one.
pub open spec fn field_value(values: Seq<(String, Value)>, name: Seq<char>) -> Option<Value> {
    match find_key(values, name) {
        Some(k) => Some(values[k].1),
        None => None,
    }
}

/// Whether `v2` gives every field of `schema` the value that `v` gives it,
/// and lacks the fields that `v` lacks.
pub open spec fn same_fields(
    schema: SchemaSpec,
    v: Seq<(String, Value)>,
    v2: Seq<(String, Value)>,
) -> bool {
    forall|i: int|
        0 <= i < schema.len() ==> #[trigger] field_value(v, schema[i].0) == field_value(
            v2,
            schema[i].0,
        )
}

proof fn lemma_same_fields_write(
    reg: RegistrySpec,
    schema: SchemaSpec,
    v: Seq<(String, Value)>,
    v2: Seq<(String, Value)>,
    i: int,
    buf: Seq<u8>,
)
    requires
        same_fields(schema, v, v2),
    ensures
        write_message(reg, schema, v, i, buf) == write_message(reg, schema, v2, i, buf),
    decreases if i < schema.len() { schema.len() - i } else { 0 },
{
    if 0 <= i < schema.len() {
        let fname = schema[i].0;
        assert(field_value(v, fname) == field_value(v2, fname));
        if let Some(k) = find_key(v, fname) {
            let k2 = find_key(v2, fname)->Some_0;
            let b = write_value(reg, schema[i].1, v[k].1, fname, fname, kind_name(v[k].1), buf);
            assert(v[k].1 == v2[k2].1);
            if let Ok(b) = b {
                lemma_same_fields_write(reg, schema, v, v2, i + 1, b);
            }
        }
    }
}

/// Keys that are not fields, and the order of the entries, do not change the
/// payload: two messages that give every field of the schema registered as
/// `name` the same value (or both lack it) serialize to the same bytes, or
/// fail with the same error.
pub proof fn law_extra_keys_and_order_ignored(
    reg: RegistrySpec,
    name: Seq<char>,
    v: Seq<(String, Value)>,
    v2: Seq<(String, Value)>,
)
    requires
        reg.contains_key(name) ==> same_fields(reg[name], v, v2),
    ensures
        serialize_spec(reg, name, v) == serialize_spec(reg, name, v2),
{
    if reg.contains_key(name) {
        lemma_same_fields_write(reg, reg[name], v, v2, 0, Seq::empty());
    }
}

/// Only the first two header bytes decide whether a payload is little-endian
/// CDR: a payload of at least four bytes that starts with 00 01 is never
/// refused as an invalid payload, and its two option bytes (2 and 3) do not
/// change what it deserializes to.
pub proof fn law_header_option_bytes_ignored(
    reg: RegistrySpec,
    name: Seq<char>,
    data: Seq<u8>,
    other: Seq<u8>,
)
    requires
        data.len() >= 4,
        data[0] == 0,
        data[1] == 1,
        other.len() == data.len(),
        other[0] == data[0],
        other[1] == data[1],
        other.subrange(4, other.len() as int) == data.subrange(4, data.len() as int),
    ensures
        !(deserialize_spec(reg, name, data) matches Some(Err(CallErrorSpec::InvalidPayload(_)))),
        deserialize_spec(reg, name, other) == deserialize_spec(reg, name, data),
{
}

/// A structure type name refers to the schema named by what follows
/// `struct:`, with white space around it dropped; where nothing is left the
/// name is refused.
pub proof fn law_struct_names_trimmed(x: Seq<char>)
    ensures
        trim_spec(x).len() > 0 ==> type_from_name("struct:"@ + x) == Ok::<TypeSpec, ErrorSpec>(
            TypeSpec::Struct(trim_spec(x)),
        ),
        trim_spec(x).len() == 0 ==> type_from_name("struct:"@ + x) == Err::<TypeSpec, ErrorSpec>(
            ErrorSpec::SchemaDefinition("Struct type must include a schema name"@),
        ),
{
    reveal_strlit("struct:");
    reveal_strlit("array<");
    let s = "struct:"@ + x;
    assert(s.subrange(0, 7) =~= "struct:"@);
    assert(s.skip(7) =~= x);
    if "array<"@.is_prefix_of(s) {
        assert(s.subrange(0, 6)[0] == s[0]);
        assert(false);
    }
}

/// The type names that denote strings and byte strings: `string` and
/// `ros_string` a string, `bytes` and `ros_bytes` a byte string.
pub proof fn law_text_type_names()
    ensures
        type_from_name("string"@) == Ok::<TypeSpec, ErrorSpec>(TypeSpec::RosString),
        type_from_name("ros_string"@) == Ok::<TypeSpec, ErrorSpec>(TypeSpec::RosString),
        type_from_name("bytes"@) == Ok::<TypeSpec, ErrorSpec>(TypeSpec::RosBytes),
        type_from_name("ros_bytes"@) == Ok::<TypeSpec, ErrorSpec>(TypeSpec::RosBytes),
{
    reveal_strlit("struct:");
    reveal_strlit("array<");
    reveal_strlit("string");
    reveal_strlit("ros_string");
    reveal_strlit("bytes");
    reveal_strlit("ros_bytes");
    reveal_strlit("bool");
    reveal_strlit("int8");
    reveal_strlit("int16");
    reveal_strlit("int32");
    reveal_strlit("int64");
    reveal_strlit("uint8");
    reveal_strlit("uint16");
    reveal_strlit("uint32");
    reveal_strlit("uint64");
    reveal_strlit("float32");
    reveal_strlit("float64");
    lemma_not_prefix_at("array<"@, "string"@, 0);
    lemma_not_prefix_at("struct:"@, "string"@, 3);
    lemma_not_prefix_at("array<"@, "ros_string"@, 0);
    lemma_not_prefix_at("struct:"@, "ros_string"@, 0);
    lemma_not_prefix_at("array<"@, "bytes"@, 0);
    lemma_not_prefix_at("struct:"@, "bytes"@, 0);
    lemma_not_prefix_at("array<"@, "ros_bytes"@, 0);
    lemma_not_prefix_at("struct:"@, "ros_bytes"@, 0);
    assert("string"@ != "bool"@);
    assert("ros_string"@ != "bool"@);
    assert("bytes"@ != "bool"@);
    assert("ros_bytes"@ != "bool"@);
    assert("bytes"@ != "string"@);
    assert("bytes"@[0] != "int16"@[0] && "bytes"@[0] != "int32"@[0] && "bytes"@[0] != "int64"@[0]
        && "bytes"@[0] != "uint8"@[0] && "bytes"@[1] != "bool"@[1]);
    assert("bytes"@ != "int16"@ && "bytes"@ != "int32"@ && "bytes"@ != "int64"@
        && "bytes"@ != "uint8"@);
    assert("ros_bytes"@ != "string"@);
    assert("bytes"@ != "ros_string"@);
    assert("ros_bytes"@ != "ros_string"@);
}

/// A sequence that differs from `p` at a position of both is not a prefix
/// continued by `p`.
proof fn lemma_not_prefix_at(p: Seq<char>, s: Seq<char>, k: int)
    requires
        0 <= k < p.len(),
        k < s.len(),
        p[k] != s[k],
    ensures
        !p.is_prefix_of(s),
{
    if p.is_prefix_of(s) {
        assert(s.subrange(0, p.len() as int)[k] == s[k]);
    }
}

/// The field name and type name that a definition entry holds, where it is
/// a sequence of exactly two strings.
pub open spec fn entry_pair(item: SchemaItem) -> Option<(Seq<char>, Seq<char>)> {
    match item {
        SchemaItem::Sequence(parts) => if parts@.len() == 2 {
            match (parts@[0], parts@[1]) {
                (Ok(a), Ok(b)) => Some((a@, b@)),
                _ => None,
            }
        } else {
            None
        },
        SchemaItem::Other => None,
    }
}

/// Whether the first `n` definition entries each hold a field name and a type
/// name that parses.
pub open spec fn entries_valid(items: Seq<SchemaItem>, n: int) -> bool {
    forall|j: int|
        0 <= j < n ==> #[trigger] entry_pair(items[j]) is Some && type_from_name(
            entry_pair(items[j])->Some_0.1,
        ) is Ok
}

/// A schema definition is accepted exactly when every entry holds a field
/// name and a type name that parses, and then each field has the name of its
/// entry and the type that its type name denotes, in the order of the
/// entries.
pub proof fn law_schema_fields_from_entries(items: Seq<SchemaItem>, n: int)
    requires
        0 <= n <= items.len(),
    ensures
        schema_from_items(items, n) is Ok <==> entries_valid(items, n),
        schema_from_items(items, n) is Ok ==> schema_from_items(items, n)->Ok_0.len() == n,
        schema_from_items(items, n) is Ok ==> forall|j: int|
            0 <= j < n ==> #[trigger] schema_from_items(items, n)->Ok_0[j] == (
                entry_pair(items[j])->Some_0.0,
                type_from_name(entry_pair(items[j])->Some_0.1)->Ok_0,
            ),
    decreases n,
{
    if n > 0 {
        law_schema_fields_from_entries(items, n - 1);
        let j = n - 1;
        if schema_from_items(items, n - 1) is Ok {
            let prev = schema_from_items(items, n - 1)->Ok_0;
            if schema_from_items(items, n) is Ok {
                let s = schema_from_items(items, n)->Ok_0;
                assert(s == prev.push(field_from_item(items[j])->Ok_0));
                assert forall|k: int| 0 <= k < n implies #[trigger] entry_pair(items[k]) is Some
                    && type_from_name(entry_pair(items[k])->Some_0.1) is Ok by {
                    if k < j {
                        assert(entries_valid(items, n - 1));
                    }
                }
            } else {
                if entries_valid(items, n) {
                    assert(entry_pair(items[j]) is Some);
                    assert(field_from_item(items[j]) is Ok);
                }
            }
        } else {
            if entries_valid(items, n) {
                assert forall|k: int| 0 <= k < n - 1 implies #[trigger] entry_pair(items[k]) is Some
                    && type_from_name(entry_pair(items[k])->Some_0.1) is Ok by {
                    assert(entries_valid(items, n));
                }
            }
        }
    }
}

/// A time or duration is written whenever its mapping gives `sec` any
/// int32 and `nanosec` any uint32: after padding to four bytes, `sec` as four
/// little-endian two's-complement bytes, then `nanosec` as four little-endian
/// bytes.
pub proof fn law_stamp_written(
    reg: RegistrySpec,
    t: TypeSpec,
    v: Value,
    path: Seq<char>,
    label: Seq<char>,
    got: Seq<char>,
    buf: Seq<u8>,
    sec: int,
    nanosec: int,
)
    requires
        t is Time || t is Duration,
        v is Dict,
        field_value(v->Dict_0@, "sec"@) is Some,
        int_of(field_value(v->Dict_0@, "sec"@)->Some_0) == Some(sec),
        -0x8000_0000 <= sec <= 0x7fff_ffff,
        field_value(v->Dict_0@, "nanosec"@) is Some,
        int_of(field_value(v->Dict_0@, "nanosec"@)->Some_0) == Some(nanosec),
        0 <= nanosec <= 0xffff_ffff,
    ensures
        write_value(reg, t, v, path, label, got, buf) == Ok::<Seq<u8>, ErrorSpec>(
            pad_to(buf, 4) + le_bytes(if sec < 0 {
                sec + 0x1_0000_0000
            } else {
                sec
            }, 4) + le_bytes(nanosec, 4),
        ),
{
    lemma_pow256_values();
    let b = pad_to(buf, 4);
    law_padding(buf, 4);
    crate::le::lemma_le_bytes_len(twos(sec, 4), 4);
    let first = b + le_bytes(twos(sec, 4), 4);
    law_padding(first, 4);
    assert(first.len() % 4 == 0);
    assert(pad_to(first, 4) == first);
}

/// Whether a write succeeds, and the error it fails with, do not depend on
/// the bytes already written before it.
pub proof fn law_write_outcome_independent_of_buffer(
    reg: RegistrySpec,
    t: TypeSpec,
    v: Value,
    path: Seq<char>,
    label: Seq<char>,
    got: Seq<char>,
    b1: Seq<u8>,
    b2: Seq<u8>,
)
    ensures
        (write_value(reg, t, v, path, label, got, b1) is Ok) == (write_value(
            reg,
            t,
            v,
            path,
            label,
            got,
            b2,
        ) is Ok),
        write_value(reg, t, v, path, label, got, b1) is Err ==> write_value(
            reg,
            t,
            v,
            path,
            label,
            got,
            b1,
        ) == write_value(reg, t, v, path, label, got, b2),
    decreases v, 1nat, 0int,
{
    match t {
        TypeSpec::Array(inner) => {
            if let Value::List(items) = v {
                lemma_items_outcome(
                    reg,
                    *inner,
                    v,
                    0,
                    path,
                    pad_to(b1, 4) + length_word(items@.len()),
                    pad_to(b2, 4) + length_word(items@.len()),
                );
            }
        },
        TypeSpec::Struct(name) => {
            if v is Dict && reg.contains_key(name) {
                lemma_fields_outcome(reg, reg[name], v, 0, path, label, got, b1, b2);
            }
        },
        _ => {},
    }
}

proof fn lemma_items_outcome(
    reg: RegistrySpec,
    inner: TypeSpec,
    list: Value,
    j: int,
    path: Seq<char>,
    b1: Seq<u8>,
    b2: Seq<u8>,
)
    ensures
        (write_items(reg, inner, list, j, path, b1) is Ok) == (write_items(
            reg,
            inner,
            list,
            j,
            path,
            b2,
        ) is Ok),
        write_items(reg, inner, list, j, path, b1) is Err ==> write_items(
            reg,
            inner,
            list,
            j,
            path,
            b1,
        ) == write_items(reg, inner, list, j, path, b2),
    decreases list, 0nat, if list is List && j < list->List_0@.len() { list->List_0@.len() - j } else { 0 },
{
    if let Value::List(items) = list {
        if 0 <= j < items@.len() {
            let item = items@[j];
            law_write_outcome_independent_of_buffer(reg, inner, item, path, path, kind_name(item), b1, b2);
            if let Ok(c1) = write_value(reg, inner, item, path, path, kind_name(item), b1) {
                let c2 = write_value(reg, inner, item, path, path, kind_name(item), b2)->Ok_0;
                lemma_items_outcome(reg, inner, list, j + 1, path, c1, c2);
            }
        }
    }
}

proof fn lemma_fields_outcome(
    reg: RegistrySpec,
    schema: SchemaSpec,
    dict: Value,
    i: int,
    path: Seq<char>,
    label: Seq<char>,
    got: Seq<char>,
    b1: Seq<u8>,
    b2: Seq<u8>,
)
    ensures
        (write_fields(reg, schema, dict, i, path, label, got, b1) is Ok) == (write_fields(
            reg,
            schema,
            dict,
            i,
            path,
            label,
            got,
            b2,
        ) is Ok),
        write_fields(reg, schema, dict, i, path, label, got, b1) is Err ==> write_fields(
            reg,
            schema,
            dict,
            i,
            path,
            label,
            got,
            b1,
        ) == write_fields(reg, schema, dict, i, path, label, got, b2),
    decreases dict, 0nat, if i < schema.len() { schema.len() - i } else { 0 },
{
    if let Value::Dict(entries) = dict {
        if 0 <= i < schema.len() {
            let fname = schema[i].0;
            lemma_find_key_from(entries@, fname, 0);
            if let Some(k) = find_key(entries@, fname) {
                let w = entries@[k].1;
                let sub = path + "."@ + fname;
                law_write_outcome_independent_of_buffer(reg, schema[i].1, w, sub, label, got, b1, b2);
                if let Ok(c1) = write_value(reg, schema[i].1, w, sub, label, got, b1) {
                    let c2 = write_value(reg, schema[i].1, w, sub, label, got, b2)->Ok_0;
                    lemma_fields_outcome(reg, schema, dict, i + 1, path, label, got, c1, c2);
                }
            }
        }
    }
}

proof fn lemma_items_written(
    reg: RegistrySpec,
    inner: TypeSpec,
    list: Value,
    j: int,
    path: Seq<char>,
    b: Seq<u8>,
)
    requires
        list is List,
        0 <= j,
        forall|k: int|
            0 <= k < list->List_0@.len() ==> #[trigger] write_value(
                reg,
                inner,
                list->List_0@[k],
                path,
                path,
                kind_name(list->List_0@[k]),
                Seq::empty(),
            ) is Ok,
    ensures
        write_items(reg, inner, list, j, path, b) is Ok,
    decreases list->List_0@.len() - j,
{
    let items = list->List_0;
    if j < items@.len() {
        let item = items@[j];
        assert(write_value(reg, inner, item, path, path, kind_name(item), Seq::empty()) is Ok);
        law_write_outcome_independent_of_buffer(
            reg,
            inner,
            item,
            path,
            path,
            kind_name(item),
            Seq::empty(),
            b,
        );
        let c = write_value(reg, inner, item, path, path, kind_name(item), b)->Ok_0;
        lemma_items_written(reg, inner, list, j + 1, path, c);
    }
}

/// Every list whose items each write as the inner type writes as an array,
/// the empty list too: after padding to four bytes comes the count of items
/// (modulo 2^32) as four little-endian bytes, then the items; an empty list
/// is its padding and a count of 0.
pub proof fn law_array_written(
    reg: RegistrySpec,
    inner: TypeSpec,
    v: Value,
    path: Seq<char>,
    label: Seq<char>,
    got: Seq<char>,
    buf: Seq<u8>,
)
    requires
        v is List,
        forall|k: int|
            0 <= k < v->List_0@.len() ==> #[trigger] write_value(
                reg,
                inner,
                v->List_0@[k],
                path,
                path,
                kind_name(v->List_0@[k]),
                Seq::empty(),
            ) is Ok,
    ensures
        write_value(reg, TypeSpec::Array(Box::new(inner)), v, path, label, got, buf) is Ok,
        (pad_to(buf, 4) + le_bytes((v->List_0@.len() % 0x1_0000_0000) as int, 4)).is_prefix_of(
            write_value(reg, TypeSpec::Array(Box::new(inner)), v, path, label, got, buf)->Ok_0,
        ),
        v->List_0@.len() == 0 ==> write_value(
            reg,
            TypeSpec::Array(Box::new(inner)),
            v,
            path,
            label,
            got,
            buf,
        ) == Ok::<Seq<u8>, ErrorSpec>(pad_to(buf, 4) + seq![0u8, 0u8, 0u8, 0u8]),
{
    let n = v->List_0@.len();
    let start = pad_to(buf, 4) + length_word(n);
    lemma_items_written(reg, inner, v, 0, path, start);
    lemma_items_append(reg, inner, v, 0, path, start);
    if n == 0 {
        assert(le_bytes(0, 4) =~= seq![0u8, 0u8, 0u8, 0u8]) by {
            reveal_with_fuel(le_bytes, 5);
        }
    }
}

} // verus!
