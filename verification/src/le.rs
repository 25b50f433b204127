//! Little-endian integer encoding, through `byteorder`.

use byteorder::{ByteOrder, LittleEndian, WriteBytesExt};
use vstd::prelude::*;

verus! {

/// `256` raised to the power `n`.
pub open spec fn pow256(n: nat) -> nat
    decreases n,
{
    if n == 0 {
        1
    } else {
        256 * pow256((n - 1) as nat)
    }
}

/// The `n` little-endian bytes of `x` (taken modulo `256^n`).
pub open spec fn le_bytes(x: int, n: nat) -> Seq<u8>
    decreases n,
{
    if n == 0 {
        Seq::empty()
    } else {
        seq![(x % 256) as u8] + le_bytes(x / 256, (n - 1) as nat)
    }
}

/// The unsigned integer whose little-endian bytes are `s`.
pub open spec fn le_value(s: Seq<u8>) -> nat
    decreases s.len(),
{
    if s.len() == 0 {
        0
    } else {
        s[0] as nat + 256 * le_value(s.drop_first())
    }
}

/// The unsigned residue that stands for `x` in `n` bytes of two's complement.
pub open spec fn twos(x: int, n: nat) -> int {
    if x < 0 {
        x + pow256(n)
    } else {
        x
    }
}

/// The powers of 256 for the widths of CDR's integers.
pub proof fn lemma_pow256_values()
    ensures
        pow256(1) == 0x100,
        pow256(2) == 0x1_0000,
        pow256(4) == 0x1_0000_0000,
        pow256(8) == 0x1_0000_0000_0000_0000,
{
    reveal_with_fuel(pow256, 9);
}

/// `le_bytes` gives exactly `n` bytes.
pub proof fn lemma_le_bytes_len(x: int, n: nat)
    ensures
        le_bytes(x, n).len() == n,
    decreases n,
{
    if n > 0 {
        lemma_le_bytes_len(x / 256, (n - 1) as nat);
    }
}

/// Reading back the bytes of a value that fits gives the value.
pub proof fn lemma_le_roundtrip(u: int, n: nat)
    requires
        0 <= u < pow256(n),
    ensures
        le_bytes(u, n).len() == n,
        le_value(le_bytes(u, n)) == u,
    decreases n,
{
    lemma_le_bytes_len(u, n);
    if n > 0 {
        let q = u / 256;
        assert(u == 256 * q + u % 256);
        assert(pow256(n) == 256 * pow256((n - 1) as nat));
        lemma_le_roundtrip(q, (n - 1) as nat);
        let b = le_bytes(u, n);
        assert(b.drop_first() =~= le_bytes(q, (n - 1) as nat));
    }
}

/// The first two bytes of `data` after `pos`, read as a little-endian `u16`
/// by `byteorder`'s `LittleEndian::read_u16`.
#[verifier::external_body]
pub(crate) fn read_u16_le(data: &[u8], pos: usize) -> (r: u16)
    requires
        pos + 2 <= data@.len(),
    ensures
        r as int == le_value(data@.subrange(pos as int, pos + 2)),
{
    LittleEndian::read_u16(&data[pos..])
}

/// `byteorder`'s `LittleEndian::read_u32` on the bytes of `data` from `pos`.
#[verifier::external_body]
pub(crate) fn read_u32_le(data: &[u8], pos: usize) -> (r: u32)
    requires
        pos + 4 <= data@.len(),
    ensures
        r as int == le_value(data@.subrange(pos as int, pos + 4)),
{
    LittleEndian::read_u32(&data[pos..])
}

/// `byteorder`'s `LittleEndian::read_u64` on the bytes of `data` from `pos`.
#[verifier::external_body]
pub(crate) fn read_u64_le(data: &[u8], pos: usize) -> (r: u64)
    requires
        pos + 8 <= data@.len(),
    ensures
        r as int == le_value(data@.subrange(pos as int, pos + 8)),
{
    LittleEndian::read_u64(&data[pos..])
}

/// `byteorder`'s `WriteBytesExt::write_u16::<LittleEndian>` on a `Vec<u8>`:
/// appends the two little-endian bytes of `v` (writing to a vector never fails).
#[verifier::external_body]
pub(crate) fn push_u16_le(buf: &mut Vec<u8>, v: u16)
    ensures
        final(buf)@ == old(buf)@ + le_bytes(v as int, 2),
{
    let _ = buf.write_u16::<LittleEndian>(v);
}

/// `byteorder`'s `WriteBytesExt::write_u32::<LittleEndian>` on a `Vec<u8>`.
#[verifier::external_body]
pub(crate) fn push_u32_le(buf: &mut Vec<u8>, v: u32)
    ensures
        final(buf)@ == old(buf)@ + le_bytes(v as int, 4),
{
    let _ = buf.write_u32::<LittleEndian>(v);
}

/// `byteorder`'s `WriteBytesExt::write_u64::<LittleEndian>` on a `Vec<u8>`.
#[verifier::external_body]
pub(crate) fn push_u64_le(buf: &mut Vec<u8>, v: u64)
    ensures
        final(buf)@ == old(buf)@ + le_bytes(v as int, 8),
{
    let _ = buf.write_u64::<LittleEndian>(v);
}

} // verus!
