//! Deserialization of little-endian CDR messages.

use crate::error::{CallError, CallErrorSpec, ErrorSpec, MessageError};
use crate::field_type::{FieldType, TypeSpec};
use crate::le::{lemma_pow256_values, le_value, pow256, read_u16_le, read_u32_le, read_u64_le};
use crate::registry::{RegistrySpec, SchemaRegistry};
use crate::schema::SchemaSpec;
use crate::text::{hex_byte, join3, owned, push_hex_byte};
use crate::value::{decoded_dict_view, decoded_list_view, Decoded, DecodedSpec};
use vstd::prelude::*;
use vstd::utf8::{decode_utf8, valid_utf8};

verus! {

/// The outcome of reading one value: the value and the position after it, an
/// error, or a read that never ends (a structure that contains itself
/// without any byte being read in between).
pub enum ReadSpec {
    Done(DecodedSpec, int),
    Fail(ErrorSpec),
    Endless,
}

/// The error of a read past the end of the data.
pub open spec fn eof_error() -> ErrorSpec {
    ErrorSpec::DeserializationError("failed to fill whole buffer"@)
}

/// The text of the error that decoding `bytes` as UTF-8 fails with, where
/// they are not valid UTF-8.
pub uninterp spec fn utf8_error_text(bytes: Seq<u8>) -> Seq<char>;

/// `String::from_utf8`: the string that `bytes` encode as UTF-8, or, where
/// they are not valid UTF-8, the text of the error (`to_string` of it).
#[verifier::external_body]
fn string_from_utf8(bytes: Vec<u8>) -> (r: Result<String, String>)
    ensures
        r is Ok <==> valid_utf8(bytes@),
        r matches Ok(s) ==> s@ == decode_utf8(bytes@),
        r matches Err(m) ==> m@ == utf8_error_text(bytes@),
{
    match String::from_utf8(bytes) {
        Ok(s) => Ok(s),
        Err(e) => Err(e.to_string()),
    }
}

/// `pos` moved forward to a multiple of `align`, which must not pass the end
/// of data of length `len`.
pub open spec fn aligned(len: int, pos: int, align: int) -> Result<int, ErrorSpec> {
    let rem = pos % align;
    if rem == 0 {
        Ok(pos)
    } else if pos + (align - rem) > len {
        Err(ErrorSpec::DeserializationError("Input truncated while aligning CDR stream"@))
    } else {
        Ok(pos + (align - rem))
    }
}

/// An `n`-byte unsigned little-endian word aligned to `n` bytes at `pos`, and
/// the position after it.
pub open spec fn word(data: Seq<u8>, pos: int, n: int) -> Result<(nat, int), ErrorSpec> {
    match aligned(data.len() as int, pos, n) {
        Err(e) => Err(e),
        Ok(p) => if p + n > data.len() {
            Err(eof_error())
        } else {
            Ok((le_value(data.subrange(p, p + n)), p + n))
        },
    }
}

/// The two's-complement value of an `n`-byte unsigned word.
pub open spec fn signed(u: nat, n: nat) -> int {
    if 2 * u >= pow256(n) {
        u - pow256(n)
    } else {
        u as int
    }
}

/// The position of the first entry whose key is `key`, from position `i` on.
pub open spec fn dict_find_from(entries: Seq<(Seq<char>, DecodedSpec)>, key: Seq<char>, i: int) -> Option<
    int,
>
    decreases entries.len() - i,
{
    if i < 0 || i >= entries.len() {
        None
    } else if entries[i].0 == key {
        Some(i)
    } else {
        dict_find_from(entries, key, i + 1)
    }
}

/// A mapping's entries with `key` set to `value`: replaced in place where the
/// key is present, added at the end where it is not.
pub open spec fn dict_insert(
    entries: Seq<(Seq<char>, DecodedSpec)>,
    key: Seq<char>,
    value: DecodedSpec,
) -> Seq<(Seq<char>, DecodedSpec)> {
    match dict_find_from(entries, key, 0) {
        Some(i) => entries.update(i, (key, value)),
        None => entries.push((key, value)),
    }
}

/// How many registered schemas are not in `chain`.
pub open spec fn unvisited(reg: RegistrySpec, chain: Seq<Seq<char>>) -> nat {
    if reg.dom().finite() {
        reg.dom().difference(chain.to_set()).len()
    } else {
        0
    }
}

/// The bytes left after position `pos`.
pub open spec fn left(data: Seq<u8>, pos: int) -> nat {
    if pos <= data.len() {
        (data.len() - pos) as nat
    } else {
        0
    }
}

/// A word read ends after its start and within the data.
pub proof fn lemma_word_bounds(data: Seq<u8>, pos: int, n: int)
    requires
        n > 0,
    ensures
        word(data, pos, n) matches Ok((u, p)) ==> pos + n <= p <= data.len(),
{
}

/// Entering a registered schema that is not yet in the chain leaves one
/// fewer unvisited.
pub proof fn lemma_unvisited_step(reg: RegistrySpec, chain: Seq<Seq<char>>, name: Seq<char>)
    requires
        reg.dom().finite(),
        reg.contains_key(name),
        !chain.contains(name),
    ensures
        unvisited(reg, chain.push(name)) + 1 == unvisited(reg, chain),
{
    let d = reg.dom().difference(chain.to_set());
    assert forall|a: Seq<char>| #![auto] chain.push(name).contains(a) <==> (chain.contains(a) || a
        == name) by {
        if chain.push(name).contains(a) {
            let j = choose|j: int| 0 <= j < chain.push(name).len() && chain.push(name)[j] == a;
            if j < chain.len() {
                assert(chain[j] == a);
            }
        }
        if chain.contains(a) {
            let j = choose|j: int| 0 <= j < chain.len() && chain[j] == a;
            assert(chain.push(name)[j] == a);
        }
        if a == name {
            assert(chain.push(name)[chain.len() as int] == a);
        }
    }
    assert(reg.dom().difference(chain.push(name).to_set()) =~= d.remove(name));
    assert(d.contains(name));
}

/// No chain leaves more schemas unvisited than the empty one.
pub proof fn lemma_unvisited_bound(reg: RegistrySpec, chain: Seq<Seq<char>>)
    ensures
        unvisited(reg, chain) <= unvisited(reg, Seq::empty()),
{
    if reg.dom().finite() {
        assert(reg.dom().difference(Seq::<Seq<char>>::empty().to_set()) =~= reg.dom());
        vstd::set_lib::lemma_len_subset(reg.dom().difference(chain.to_set()), reg.dom());
    }
}

/// The value of type `t` read from `data` at `pos` (see [`ReadSpec`]).
/// `path` names the field (dotted below structures); `chain` lists the
/// schemas entered at this very position, enclosing the read.
pub open spec fn read_value(
    reg: RegistrySpec,
    t: TypeSpec,
    data: Seq<u8>,
    pos: int,
    path: Seq<char>,
    chain: Seq<Seq<char>>,
) -> ReadSpec
    decreases left(data, pos), unvisited(reg, chain), 1nat, 0int,
{
    match t {
        TypeSpec::Bool => match word(data, pos, 1) {
            Ok((u, p)) => ReadSpec::Done(DecodedSpec::Bool(u != 0), p),
            Err(e) => ReadSpec::Fail(e),
        },
        TypeSpec::Int8 => match word(data, pos, 1) {
            Ok((u, p)) => ReadSpec::Done(DecodedSpec::Int(signed(u, 1)), p),
            Err(e) => ReadSpec::Fail(e),
        },
        TypeSpec::Int16 => match word(data, pos, 2) {
            Ok((u, p)) => ReadSpec::Done(DecodedSpec::Int(signed(u, 2)), p),
            Err(e) => ReadSpec::Fail(e),
        },
        TypeSpec::Int32 => match word(data, pos, 4) {
            Ok((u, p)) => ReadSpec::Done(DecodedSpec::Int(signed(u, 4)), p),
            Err(e) => ReadSpec::Fail(e),
        },
        TypeSpec::Int64 => match word(data, pos, 8) {
            Ok((u, p)) => ReadSpec::Done(DecodedSpec::Int(signed(u, 8)), p),
            Err(e) => ReadSpec::Fail(e),
        },
        TypeSpec::UInt8 => match word(data, pos, 1) {
            Ok((u, p)) => ReadSpec::Done(DecodedSpec::Int(u as int), p),
            Err(e) => ReadSpec::Fail(e),
        },
        TypeSpec::UInt16 => match word(data, pos, 2) {
            Ok((u, p)) => ReadSpec::Done(DecodedSpec::Int(u as int), p),
            Err(e) => ReadSpec::Fail(e),
        },
        TypeSpec::UInt32 => match word(data, pos, 4) {
            Ok((u, p)) => ReadSpec::Done(DecodedSpec::Int(u as int), p),
            Err(e) => ReadSpec::Fail(e),
        },
        TypeSpec::UInt64 => match word(data, pos, 8) {
            Ok((u, p)) => ReadSpec::Done(DecodedSpec::Int(u as int), p),
            Err(e) => ReadSpec::Fail(e),
        },
        TypeSpec::Float32 => match word(data, pos, 4) {
            Ok((u, p)) => ReadSpec::Done(DecodedSpec::Float32(#[verifier::truncate] (u as u32)), p),
            Err(e) => ReadSpec::Fail(e),
        },
        TypeSpec::Float64 => match word(data, pos, 8) {
            Ok((u, p)) => ReadSpec::Done(DecodedSpec::Float64(#[verifier::truncate] (u as u64)), p),
            Err(e) => ReadSpec::Fail(e),
        },
        TypeSpec::RosString => match word(data, pos, 4) {
            Ok((n, p)) => if p + n > data.len() {
                ReadSpec::Fail(eof_error())
            } else {
                let b = data.subrange(p, p + n);
                if n == 0 || b.last() != 0 {
                    ReadSpec::Fail(
                        ErrorSpec::DeserializationError(
                            "Invalid ROS string for '"@ + path + "': missing NUL terminator"@,
                        ),
                    )
                } else if valid_utf8(b.drop_last()) {
                    ReadSpec::Done(DecodedSpec::Str(decode_utf8(b.drop_last())), p + n)
                } else {
                    ReadSpec::Fail(
                        ErrorSpec::DeserializationError(utf8_error_text(b.drop_last())),
                    )
                }
            },
            Err(e) => ReadSpec::Fail(e),
        },
        TypeSpec::RosBytes => match word(data, pos, 4) {
            Ok((n, p)) => if p + n > data.len() {
                ReadSpec::Fail(eof_error())
            } else {
                ReadSpec::Done(DecodedSpec::Bytes(data.subrange(p, p + n)), p + n)
            },
            Err(e) => ReadSpec::Fail(e),
        },
        TypeSpec::Array(inner) => match word(data, pos, 4) {
            Ok((n, p)) => {
                proof {
                    lemma_word_bounds(data, pos, 4);
                }
                read_items(reg, *inner, n, data, p, path, Seq::empty())
            },
            Err(e) => ReadSpec::Fail(e),
        },
        TypeSpec::Struct(name) => if !reg.contains_key(name) {
            ReadSpec::Fail(ErrorSpec::UnknownSchema(name))
        } else if chain.contains(name) || !reg.dom().finite() {
            ReadSpec::Endless
        } else {
            proof {
                lemma_unvisited_step(reg, chain, name);
            }
            read_fields(reg, reg[name], 0, data, pos, path, chain.push(name), pos, Seq::empty())
        },
        TypeSpec::Time | TypeSpec::Duration => match word(data, pos, 4) {
            Ok((sec, p)) => match word(data, p, 4) {
                Ok((ns, p2)) => ReadSpec::Done(
                    DecodedSpec::Dict(
                        seq![("sec"@, DecodedSpec::Int(signed(sec, 4))), ("nanosec"@, DecodedSpec::Int(ns as int))],
                    ),
                    p2,
                ),
                Err(e) => ReadSpec::Fail(e),
            },
            Err(e) => ReadSpec::Fail(e),
        },
    }
}

/// The remaining `count` items of an array of `inner` from `pos` on, after
/// the items `acc` already read.
pub open spec fn read_items(
    reg: RegistrySpec,
    inner: TypeSpec,
    count: nat,
    data: Seq<u8>,
    pos: int,
    path: Seq<char>,
    acc: Seq<DecodedSpec>,
) -> ReadSpec
    decreases left(data, pos), unvisited(reg, Seq::empty()) + 1, 0nat, count,
{
    if count == 0 {
        ReadSpec::Done(DecodedSpec::List(acc), pos)
    } else {
        match read_value(reg, inner, data, pos, path, Seq::empty()) {
            ReadSpec::Done(d, p) => if p < pos || p > data.len() {
                ReadSpec::Endless
            } else {
                read_items(reg, inner, (count - 1) as nat, data, p, path, acc.push(d))
            },
            ReadSpec::Fail(e) => ReadSpec::Fail(e),
            ReadSpec::Endless => ReadSpec::Endless,
        }
    }
}

/// The fields of `schema` from position `i` on, read from `pos` inside a
/// structure entered at `start` with the chain `chain`, after the entries
/// `acc` already read.
pub open spec fn read_fields(
    reg: RegistrySpec,
    schema: SchemaSpec,
    i: int,
    data: Seq<u8>,
    pos: int,
    path: Seq<char>,
    chain: Seq<Seq<char>>,
    start: int,
    acc: Seq<(Seq<char>, DecodedSpec)>,
) -> ReadSpec
    decreases left(data, pos), if pos == start {
        unvisited(reg, chain) + 1
    } else {
        unvisited(reg, Seq::empty()) + 1
    }, 0nat, if i < schema.len() { schema.len() - i } else { 0 },
{
    if 0 <= i < schema.len() {
        let fname = schema[i].0;
        let inner_chain = if pos == start {
            chain
        } else {
            Seq::empty()
        };
        proof {
            lemma_unvisited_bound(reg, chain);
        }
        match read_value(reg, schema[i].1, data, pos, path + "."@ + fname, inner_chain) {
            ReadSpec::Done(d, p) => if p < pos || p > data.len() {
                ReadSpec::Endless
            } else {
                read_fields(reg, schema, i + 1, data, p, path, chain, start, dict_insert(acc, fname, d))
            },
            ReadSpec::Fail(e) => ReadSpec::Fail(e),
            ReadSpec::Endless => ReadSpec::Endless,
        }
    } else {
        ReadSpec::Done(DecodedSpec::Dict(acc), pos)
    }
}

/// The top-level fields of `schema` from position `i` on, read from `pos`,
/// after the entries `acc` already read: the message's entries, the error of
/// the first field that fails, or `None` where the read never ends.
pub open spec fn read_message(
    reg: RegistrySpec,
    schema: SchemaSpec,
    i: int,
    data: Seq<u8>,
    pos: int,
    acc: Seq<(Seq<char>, DecodedSpec)>,
) -> Option<Result<Seq<(Seq<char>, DecodedSpec)>, ErrorSpec>>
    decreases if i < schema.len() { schema.len() - i } else { 0 },
{
    if 0 <= i < schema.len() {
        let fname = schema[i].0;
        match read_value(reg, schema[i].1, data, pos, fname, Seq::empty()) {
            ReadSpec::Done(d, p) => read_message(reg, schema, i + 1, data, p, dict_insert(acc, fname, d)),
            ReadSpec::Fail(e) => Some(Err(e)),
            ReadSpec::Endless => None,
        }
    } else {
        Some(Ok(acc))
    }
}

/// The text of the error for a payload that is not little-endian CDR.
pub open spec fn encapsulation_error(data: Seq<u8>) -> Seq<char> {
    "Unsupported CDR encapsulation ["@ + hex_byte(data[0]) + ", "@ + hex_byte(data[1]) + ", "@
        + hex_byte(data[2]) + ", "@ + hex_byte(data[3])
        + "]. Only little-endian CDR is currently supported"@
}

/// The message that `data` holds under the schema registered as `name`, or
/// the error it is refused with, or `None` where reading it never ends.
/// Payloads shorter than the four-byte encapsulation header, and those whose
/// first two bytes are not those of little-endian CDR, are refused first;
/// the fields follow the header in schema order, in a body whose alignment
/// counts from its own first byte, as standard CDR does.
pub open spec fn deserialize_spec(reg: RegistrySpec, name: Seq<char>, data: Seq<u8>) -> Option<
    Result<Seq<(Seq<char>, DecodedSpec)>, CallErrorSpec>,
> {
    if let Some(m) = header_refusal(data) {
        Some(Err(CallErrorSpec::InvalidPayload(m)))
    } else if !reg.contains_key(name) {
        Some(Err(CallErrorSpec::Message(ErrorSpec::UnknownSchema(name))))
    } else {
        match read_message(reg, reg[name], 0, data.subrange(4, data.len() as int), 0, Seq::empty()) {
            Some(Ok(m)) => Some(Ok(m)),
            Some(Err(e)) => Some(Err(CallErrorSpec::Message(e))),
            None => None,
        }
    }
}

/// Why an executable read stopped short of a value.
#[derive(Debug)]
pub enum ReadFailure {
    Error(MessageError),
    /// The read would never end (see [`ReadSpec::Endless`]).
    Endless,
}

/// Whether a read returned what the expected outcome says.
pub open spec fn read_matches(r: Result<(Decoded, usize), ReadFailure>, expected: ReadSpec) -> bool {
    match expected {
        ReadSpec::Done(d, p) => r matches Ok((x, q)) && x@ == d && q as int == p,
        ReadSpec::Fail(e) => r matches Err(ReadFailure::Error(x)) && x@ == e,
        ReadSpec::Endless => r matches Err(ReadFailure::Endless),
    }
}

/// The names of a chain of schemas.
pub open spec fn names_view(chain: Seq<String>) -> Seq<Seq<char>> {
    chain.map_values(|s: String| s@)
}

proof fn lemma_le_value_bound(s: Seq<u8>)
    ensures
        le_value(s) < pow256(s.len()),
    decreases s.len(),
{
    if s.len() > 0 {
        lemma_le_value_bound(s.drop_first());
    }
}

/// Moves `pos` forward to a multiple of `align` (see [`aligned`]).
fn align_read(len: usize, pos: usize, align: usize) -> (r: Result<usize, MessageError>)
    requires
        align > 0,
        pos <= len,
    ensures
        match aligned(len as int, pos as int, align as int) {
            Ok(p) => r matches Ok(q) && q as int == p,
            Err(e) => r matches Err(x) && x@ == e,
        },
{
    let rem = pos % align;
    if rem == 0 {
        return Ok(pos);
    }
    let pad = align - rem;
    if len - pos < pad {
        return Err(
            MessageError::DeserializationError(owned("Input truncated while aligning CDR stream")),
        );
    }
    Ok(pos + pad)
}

/// Reads an `n`-byte word aligned to `n` bytes (see [`word`]).
fn read_word(data: &[u8], pos: usize, n: usize) -> (r: Result<(u64, usize), MessageError>)
    requires
        n == 1 || n == 2 || n == 4 || n == 8,
        pos <= data@.len(),
    ensures
        match word(data@, pos as int, n as int) {
            Ok((u, p)) => r matches Ok((x, q)) && x as int == u && q as int == p,
            Err(e) => r matches Err(x) && x@ == e,
        },
{
    let p = match align_read(data.len(), pos, n) {
        Ok(p) => p,
        Err(e) => {
            return Err(e);
        },
    };
    if data.len() - p < n {
        return Err(MessageError::DeserializationError(owned("failed to fill whole buffer")));
    }
    let x: u64 = if n == 1 {
        proof {
            let b = data@.subrange(p as int, p + 1);
            assert(b.drop_first() =~= Seq::<u8>::empty());
            assert(le_value(b) == b[0] as nat + 256 * le_value(b.drop_first()));
        }
        data[p] as u64
    } else if n == 2 {
        read_u16_le(data, p) as u64
    } else if n == 4 {
        read_u32_le(data, p) as u64
    } else {
        read_u64_le(data, p)
    };
    Ok((x, p + n))
}

/// The two's-complement value of an `n`-byte word (see [`signed`]).
fn to_signed(u: u64, n: usize) -> (r: i128)
    requires
        n == 1 || n == 2 || n == 4 || n == 8,
        (u as int) < pow256(n as nat),
    ensures
        r as int == signed(u as nat, n as nat),
{
    proof {
        lemma_pow256_values();
    }
    let full: i128 = if n == 1 {
        0x100
    } else if n == 2 {
        0x1_0000
    } else if n == 4 {
        0x1_0000_0000
    } else {
        0x1_0000_0000_0000_0000
    };
    if 2 * (u as i128) >= full {
        u as i128 - full
    } else {
        u as i128
    }
}

/// Whether `name` is among the names of `chain`.
fn chain_contains(chain: &Vec<String>, name: &String) -> (r: bool)
    ensures
        r == names_view(chain@).contains(name@),
{
    let mut i: usize = 0;
    while i < chain.len()
        invariant
            i <= chain@.len(),
            forall|j: int| 0 <= j < i ==> names_view(chain@)[j] != name@,
        decreases chain@.len() - i,
    {
        if chain[i] == *name {
            assert(names_view(chain@)[i as int] == name@);
            return true;
        }
        i = i + 1;
    }
    false
}

/// `chain` with `name` added at the end.
fn chain_with(chain: &Vec<String>, name: &String) -> (r: Vec<String>)
    ensures
        names_view(r@) == names_view(chain@).push(name@),
{
    let mut out: Vec<String> = Vec::new();
    let mut i: usize = 0;
    while i < chain.len()
        invariant
            i <= chain@.len(),
            out@.len() == i,
            forall|j: int| 0 <= j < i ==> #[trigger] out@[j]@ == chain@[j]@,
        decreases chain@.len() - i,
    {
        out.push(chain[i].clone());
        i = i + 1;
    }
    out.push(name.clone());
    assert(names_view(out@) =~= names_view(chain@).push(name@));
    out
}

/// Sets `key` to `value` in a decoded mapping (see [`dict_insert`]).
fn dict_put(entries: &mut Vec<(String, Decoded)>, key: String, value: Decoded)
    ensures
        decoded_dict_view(final(entries)@) == dict_insert(
            decoded_dict_view(old(entries)@),
            key@,
            value@,
        ),
{
    let ghost old_view = decoded_dict_view(entries@);
    proof {
        crate::value::lemma_dict_view(entries@);
        lemma_find_views(entries@, key@, 0);
    }
    match crate::encode::find_entry(entries, key.as_str()) {
        Some(i) => {
            let ghost k = key@;
            let ghost v = value@;
            entries.set(i, (key, value));
            proof {
                crate::value::lemma_dict_view(entries@);
                assert(decoded_dict_view(entries@) =~= old_view.update(i as int, (k, v)));
            }
        },
        None => {
            entries.push((key, value));
            proof {
                crate::value::lemma_dict_view(entries@);
                assert(decoded_dict_view(entries@) =~= old_view.push((key@, value@)));
            }
        },
    }
}

/// Finding a key among executable entries finds it among their views.
proof fn lemma_find_views(entries: Seq<(String, Decoded)>, key: Seq<char>, i: int)
    ensures
        crate::encode::find_key_from(entries, key, i) == dict_find_from(
            decoded_dict_view(entries),
            key,
            i,
        ),
    decreases entries.len() - i,
{
    crate::value::lemma_dict_view(entries);
    if 0 <= i < entries.len() {
        lemma_find_views(entries, key, i + 1);
    }
}

/// Copies `data[from..to]` into a new vector.
fn copy_range(data: &[u8], from: usize, to: usize) -> (r: Vec<u8>)
    requires
        from <= to <= data@.len(),
    ensures
        r@ == data@.subrange(from as int, to as int),
{
    let mut out: Vec<u8> = Vec::new();
    let mut k: usize = from;
    while k < to
        invariant
            from <= k <= to,
            to <= data@.len(),
            out@ == data@.subrange(from as int, k as int),
        decreases to - k,
    {
        out.push(data[k]);
        k = k + 1;
        assert(out@ =~= data@.subrange(from as int, k as int));
    }
    out
}

fn fail<T>(e: MessageError) -> (r: Result<T, ReadFailure>)
    ensures
        r matches Err(ReadFailure::Error(x)) && x == e,
{
    Err(ReadFailure::Error(e))
}

/// Reads a value of a type that holds no other type (see [`read_value`]).
fn read_primitive(t: &FieldType, data: &[u8], pos: usize, path: &str) -> (r: Result<
    (Decoded, usize),
    ReadFailure,
>)
    requires
        pos <= data@.len(),
        !(t is Array || t is Struct || t is Time || t is Duration || t is RosString
            || t is RosBytes),
    ensures
        forall|reg: RegistrySpec, chain: Seq<Seq<char>>|
            read_matches(r, #[trigger] read_value(reg, t@, data@, pos as int, path@, chain)),
        r matches Ok((_, q)) ==> pos <= q <= data@.len(),
{
    proof {
        lemma_pow256_values();
        lemma_word_bounds(data@, pos as int, 1);
        lemma_word_bounds(data@, pos as int, 2);
        lemma_word_bounds(data@, pos as int, 4);
        lemma_word_bounds(data@, pos as int, 8);
    }
    let n: usize = match t {
        FieldType::Bool | FieldType::Int8 | FieldType::UInt8 => 1,
        FieldType::Int16 | FieldType::UInt16 => 2,
        FieldType::Int32 | FieldType::UInt32 | FieldType::Float32 => 4,
        _ => 8,
    };
    let (u, p) = match read_word(data, pos, n) {
        Ok(w) => w,
        Err(e) => {
            return fail(e);
        },
    };
    proof {
        lemma_le_value_bound(data@.subrange(p - n, p as int));
    }
    let d = match t {
        FieldType::Bool => Decoded::Bool(u != 0),
        FieldType::Int8 | FieldType::Int16 | FieldType::Int32 | FieldType::Int64 => Decoded::Int(
            to_signed(u, n),
        ),
        FieldType::Float32 => Decoded::Float32(u as u32),
        FieldType::Float64 => Decoded::Float64(u),
        _ => Decoded::Int(u as i128),
    };
    Ok((d, p))
}

/// Reads a string or byte string (see [`read_value`]).
fn read_text(t: &FieldType, data: &[u8], pos: usize, path: &str) -> (r: Result<
    (Decoded, usize),
    ReadFailure,
>)
    requires
        pos <= data@.len(),
        t is RosString || t is RosBytes,
    ensures
        forall|reg: RegistrySpec, chain: Seq<Seq<char>>|
            read_matches(r, #[trigger] read_value(reg, t@, data@, pos as int, path@, chain)),
        r matches Ok((_, q)) ==> pos <= q <= data@.len(),
{
    proof {
        lemma_word_bounds(data@, pos as int, 4);
    }
    let (n, p) = match read_word(data, pos, 4) {
        Ok(w) => w,
        Err(e) => {
            return fail(e);
        },
    };
    if ((data.len() - p) as u64) < n {
        return fail(MessageError::DeserializationError(owned("failed to fill whole buffer")));
    }
    let end = p + n as usize;
    if let FieldType::RosBytes = t {
        return Ok((Decoded::Bytes(copy_range(data, p, end)), end));
    }
    if n == 0 || data[end - 1] != 0 {
        return fail(
            MessageError::DeserializationError(
                join3("Invalid ROS string for '", path, "': missing NUL terminator"),
            ),
        );
    }
    let text = copy_range(data, p, end - 1);
    proof {
        assert(data@.subrange(p as int, end as int).drop_last() =~= text@);
    }
    match string_from_utf8(text) {
        Ok(s) => Ok((Decoded::Str(s), end)),
        Err(m) => fail(MessageError::DeserializationError(m)),
    }
}

/// Reads a time or duration (see [`read_value`]).
fn read_stamp(t: &FieldType, data: &[u8], pos: usize) -> (r: Result<(Decoded, usize), ReadFailure>)
    requires
        pos <= data@.len(),
        t is Time || t is Duration,
    ensures
        forall|reg: RegistrySpec, path: Seq<char>, chain: Seq<Seq<char>>|
            read_matches(r, #[trigger] read_value(reg, t@, data@, pos as int, path, chain)),
        r matches Ok((_, q)) ==> pos <= q <= data@.len(),
{
    proof {
        lemma_pow256_values();
        lemma_word_bounds(data@, pos as int, 4);
    }
    let (sec, p) = match read_word(data, pos, 4) {
        Ok(w) => w,
        Err(e) => {
            return fail(e);
        },
    };
    proof {
        lemma_le_value_bound(data@.subrange(p - 4, p as int));
        lemma_word_bounds(data@, p as int, 4);
    }
    let (ns, p2) = match read_word(data, p, 4) {
        Ok(w) => w,
        Err(e) => {
            return fail(e);
        },
    };
    let mut entries: Vec<(String, Decoded)> = Vec::new();
    entries.push((owned("sec"), Decoded::Int(to_signed(sec, 4))));
    entries.push((owned("nanosec"), Decoded::Int(ns as i128)));
    proof {
        crate::value::lemma_dict_view(entries@);
        assert(decoded_dict_view(entries@) =~= seq![("sec"@, DecodedSpec::Int(signed(sec as nat, 4))), ("nanosec"@, DecodedSpec::Int(ns as int))]);
    }
    Ok((Decoded::Dict(entries), p2))
}

/// Reads an array of `inner` (see [`read_value`]).
fn read_array(
    reg: &SchemaRegistry,
    t: &FieldType,
    inner: &FieldType,
    data: &[u8],
    pos: usize,
    path: &str,
    chain: &Vec<String>,
) -> (r: Result<(Decoded, usize), ReadFailure>)
    requires
        pos <= data@.len(),
        t@ == TypeSpec::Array(Box::new(inner@)),
    ensures
        read_matches(r, read_value(reg@, t@, data@, pos as int, path@, names_view(chain@))),
        r matches Ok((_, q)) ==> pos <= q <= data@.len(),
    decreases data@.len() - pos, unvisited(reg@, names_view(chain@)), 0nat,
{
    proof {
        lemma_word_bounds(data@, pos as int, 4);
    }
    let (n, start) = match read_word(data, pos, 4) {
        Ok(w) => w,
        Err(e) => {
            return fail(e);
        },
    };
    let ghost total = read_value(reg@, t@, data@, pos as int, path@, names_view(chain@));
    let no_chain: Vec<String> = Vec::new();
    let mut items: Vec<Decoded> = Vec::new();
    let mut cur = start;
    let mut j: u64 = 0;
    proof {
        assert(decoded_list_view(items@) =~= Seq::<DecodedSpec>::empty());
        assert(names_view(no_chain@) =~= Seq::<Seq<char>>::empty());
    }
    while j < n
        invariant
            pos < start <= cur <= data@.len(),
            j <= n,
            names_view(no_chain@) == Seq::<Seq<char>>::empty(),
            t@ == TypeSpec::Array(Box::new(inner@)),
            total == read_value(reg@, t@, data@, pos as int, path@, names_view(chain@)),
            total == read_items(
                reg@,
                inner@,
                (n - j) as nat,
                data@,
                cur as int,
                path@,
                decoded_list_view(items@),
            ),
        decreases n - j,
    {
        match read_by_type(reg, inner, data, cur, path, &no_chain) {
            Ok((d, q)) => {
                let ghost before = items@;
                items.push(d);
                proof {
                    assert(items@.drop_last() =~= before);
                }
                cur = q;
            },
            Err(e) => {
                return Err(e);
            },
        }
        j = j + 1;
    }
    Ok((Decoded::List(items), cur))
}

/// Reads a structure of the schema registered as `name` (see [`read_value`]).
fn read_struct(
    reg: &SchemaRegistry,
    t: &FieldType,
    name: &String,
    data: &[u8],
    pos: usize,
    path: &str,
    chain: &Vec<String>,
) -> (r: Result<(Decoded, usize), ReadFailure>)
    requires
        pos <= data@.len(),
        t@ == TypeSpec::Struct(name@),
    ensures
        read_matches(r, read_value(reg@, t@, data@, pos as int, path@, names_view(chain@))),
        r matches Ok((_, q)) ==> pos <= q <= data@.len(),
    decreases data@.len() - pos, unvisited(reg@, names_view(chain@)), 0nat,
{
    let schema = match reg.schema_ref(name.as_str()) {
        Some(s) => s,
        None => {
            return fail(MessageError::UnknownSchema(name.clone()));
        },
    };
    if chain_contains(chain, name) {
        return Err(ReadFailure::Endless);
    }
    proof {
        reg.lemma_finite();
        lemma_unvisited_step(reg@, names_view(chain@), name@);
    }
    let ghost total = read_value(reg@, t@, data@, pos as int, path@, names_view(chain@));
    let inner_chain = chain_with(chain, name);
    let no_chain: Vec<String> = Vec::new();
    let mut entries: Vec<(String, Decoded)> = Vec::new();
    let mut cur = pos;
    let mut i: usize = 0;
    proof {
        assert(decoded_dict_view(entries@) =~= Seq::<(Seq<char>, DecodedSpec)>::empty());
        assert(names_view(no_chain@) =~= Seq::<Seq<char>>::empty());
    }
    while i < schema.fields.len()
        invariant
            pos <= cur <= data@.len(),
            i <= schema.fields@.len(),
            names_view(no_chain@) == Seq::<Seq<char>>::empty(),
            names_view(inner_chain@) == names_view(chain@).push(name@),
            unvisited(reg@, names_view(inner_chain@)) + 1 == unvisited(reg@, names_view(chain@)),
            total == read_value(reg@, t@, data@, pos as int, path@, names_view(chain@)),
            total == read_fields(
                reg@,
                schema@,
                i as int,
                data@,
                cur as int,
                path@,
                names_view(inner_chain@),
                pos as int,
                decoded_dict_view(entries@),
            ),
        decreases schema.fields@.len() - i,
    {
        let field = &schema.fields[i];
        assert(schema@[i as int] == field@);
        let sub_path = join3(path, ".", field.name.as_str());
        let result = if cur == pos {
            read_by_type(reg, &field.field_type, data, cur, sub_path.as_str(), &inner_chain)
        } else {
            read_by_type(reg, &field.field_type, data, cur, sub_path.as_str(), &no_chain)
        };
        match result {
            Ok((d, q)) => {
                dict_put(&mut entries, field.name.clone(), d);
                cur = q;
            },
            Err(e) => {
                return Err(e);
            },
        }
        i = i + 1;
    }
    Ok((Decoded::Dict(entries), cur))
}

/// Reads a value of type `t` from `data` at `pos` (see [`read_value`]).
pub fn read_by_type(
    reg: &SchemaRegistry,
    t: &FieldType,
    data: &[u8],
    pos: usize,
    path: &str,
    chain: &Vec<String>,
) -> (r: Result<(Decoded, usize), ReadFailure>)
    requires
        pos <= data@.len(),
    ensures
        read_matches(r, read_value(reg@, t@, data@, pos as int, path@, names_view(chain@))),
        r matches Ok((_, q)) ==> pos <= q <= data@.len(),
    decreases data@.len() - pos, unvisited(reg@, names_view(chain@)), 1nat,
{
    match t {
        FieldType::Array(inner) => read_array(reg, t, inner, data, pos, path, chain),
        FieldType::Struct(name) => read_struct(reg, t, name, data, pos, path, chain),
        FieldType::Time | FieldType::Duration => read_stamp(t, data, pos),
        FieldType::RosString | FieldType::RosBytes => read_text(t, data, pos, path),
        _ => read_primitive(t, data, pos, path),
    }
}

/// The text of the error for a payload that is not little-endian CDR (see
/// [`encapsulation_error`]).
fn encapsulation_message(data: &[u8]) -> (r: String)
    requires
        data@.len() >= 4,
    ensures
        r@ == encapsulation_error(data@),
{
    let mut out = owned("Unsupported CDR encapsulation [");
    push_hex_byte(&mut out, data[0]);
    out.append(", ");
    push_hex_byte(&mut out, data[1]);
    out.append(", ");
    push_hex_byte(&mut out, data[2]);
    out.append(", ");
    push_hex_byte(&mut out, data[3]);
    out.append("]. Only little-endian CDR is currently supported");
    out
}

/// The refusal of a payload that cannot be little-endian CDR, before any
/// schema is consulted: too short for the encapsulation header, or with a
/// header whose first two bytes are not those of little-endian CDR.
pub open spec fn header_refusal(data: Seq<u8>) -> Option<Seq<char>> {
    if data.len() < 4 {
        Some("CDR payload too short (missing encapsulation header)"@)
    } else if data[0] != 0 || data[1] != 1 {
        Some(encapsulation_error(data))
    } else {
        None
    }
}

/// Checks the encapsulation header of a payload (see [`header_refusal`]).
pub fn check_header(data: &[u8]) -> (r: Option<String>)
    ensures
        match header_refusal(data@) {
            Some(m) => r matches Some(x) && x@ == m,
            None => r is None,
        },
{
    if data.len() < 4 {
        return Some(owned("CDR payload too short (missing encapsulation header)"));
    }
    if data[0] != 0 || data[1] != 1 {
        return Some(encapsulation_message(data));
    }
    None
}

impl SchemaRegistry {
    /// Reads the message that `data` holds under the schema registered as
    /// `schema_name` (see [`deserialize_spec`]); `None` where that read would
    /// never end.
    pub fn try_deserialize(&self, schema_name: &str, data: &[u8]) -> (r: Option<
        Result<Vec<(String, Decoded)>, CallError>,
    >)
        ensures
            match deserialize_spec(self@, schema_name@, data@) {
                Some(Ok(m)) => r matches Some(Ok(x)) && decoded_dict_view(x@) == m,
                Some(Err(e)) => r matches Some(Err(x)) && x@ == e,
                None => r is None,
            },
    {
        if let Some(m) = check_header(data) {
            return Some(Err(CallError::InvalidPayload(m)));
        }
        let schema = match self.schema_ref(schema_name) {
            Some(s) => s,
            None => {
                return Some(Err(CallError::Message(MessageError::UnknownSchema(owned(schema_name)))));
            },
        };
        let body = copy_range(data, 4, data.len());
        let ghost total = read_message(self@, schema@, 0, body@, 0, Seq::empty());
        let no_chain: Vec<String> = Vec::new();
        let mut entries: Vec<(String, Decoded)> = Vec::new();
        let mut cur: usize = 0;
        let mut i: usize = 0;
        proof {
            assert(decoded_dict_view(entries@) =~= Seq::<(Seq<char>, DecodedSpec)>::empty());
            assert(names_view(no_chain@) =~= Seq::<Seq<char>>::empty());
        }
        while i < schema.fields.len()
            invariant
                cur <= body@.len(),
                i <= schema.fields@.len(),
                data@.len() >= 4,
                data@[0] == 0 && data@[1] == 1,
                body@ == data@.subrange(4, data@.len() as int),
                self@.contains_key(schema_name@),
                schema@ == self@[schema_name@],
                names_view(no_chain@) == Seq::<Seq<char>>::empty(),
                total == read_message(self@, schema@, 0, body@, 0, Seq::empty()),
                total == read_message(
                    self@,
                    schema@,
                    i as int,
                    body@,
                    cur as int,
                    decoded_dict_view(entries@),
                ),
            decreases schema.fields@.len() - i,
        {
            let field = &schema.fields[i];
            assert(schema@[i as int] == field@);
            match read_by_type(
                self,
                &field.field_type,
                body.as_slice(),
                cur,
                field.name.as_str(),
                &no_chain,
            ) {
                Ok((d, q)) => {
                    dict_put(&mut entries, field.name.clone(), d);
                    cur = q;
                },
                Err(ReadFailure::Error(e)) => {
                    return Some(Err(CallError::Message(e)));
                },
                Err(ReadFailure::Endless) => {
                    return None;
                },
            }
            i = i + 1;
        }
        Some(Ok(entries))
    }

    /// Reads the message that `data` holds under the schema registered as
    /// `schema_name` (see [`deserialize_spec`]), where that read ends.
    pub fn deserialize(&self, schema_name: &str, data: &[u8]) -> (r: Result<
        Vec<(String, Decoded)>,
        CallError,
    >)
        requires
            deserialize_spec(self@, schema_name@, data@) is Some,
        ensures
            match deserialize_spec(self@, schema_name@, data@) {
                Some(Ok(m)) => r matches Ok(x) && decoded_dict_view(x@) == m,
                Some(Err(e)) => r matches Err(x) && x@ == e,
                None => false,
            },
    {
        match self.try_deserialize(schema_name, data) {
            Some(r) => r,
            None => {
                proof {
                    assert(false);
                }
                Ok(Vec::new())
            },
        }
    }
}

} // verus!
