//! Big-endian integers in byte sequences.

use vstd::prelude::*;

verus! {

/// The big-endian 16-bit integer at `p` of `d`.
pub open spec fn be16(d: Seq<u8>, p: int) -> nat {
    d[p] as nat * 256 + d[p + 1] as nat
}

/// The big-endian 32-bit integer at `p` of `d`.
pub open spec fn be32(d: Seq<u8>, p: int) -> nat {
    be16(d, p) * 65536 + be16(d, p + 2)
}

/// The two big-endian bytes of `v`.
pub open spec fn be16_bytes(v: u16) -> Seq<u8> {
    seq![(v / 256) as u8, (v % 256) as u8]
}

/// The four big-endian bytes of `v`.
pub open spec fn be32_bytes(v: u32) -> Seq<u8> {
    be16_bytes((v / 65536) as u16) + be16_bytes((v % 65536) as u16)
}

/// The big-endian `u16` at `offset`, if the data reaches that far.
pub fn read_u16_be(data: &[u8], offset: usize) -> (r: Option<u16>)
    ensures
        match r {
            Some(v) => offset + 2 <= data@.len() && v as nat == be16(data@, offset as int),
            None => offset + 2 > data@.len(),
        },
{
    if offset > data.len() || data.len() - offset < 2 {
        return None;
    }
    Some(data[offset] as u16 * 256 + data[offset + 1] as u16)
}

/// The big-endian `u32` at `offset`, if the data reaches that far.
pub fn read_u32_be(data: &[u8], offset: usize) -> (r: Option<u32>)
    ensures
        match r {
            Some(v) => offset + 4 <= data@.len() && v as nat == be32(data@, offset as int),
            None => offset + 4 > data@.len(),
        },
{
    if offset > data.len() || data.len() - offset < 4 {
        return None;
    }
    let hi = data[offset] as u32 * 256 + data[offset + 1] as u32;
    let lo = data[offset + 2] as u32 * 256 + data[offset + 3] as u32;
    Some(hi * 65536 + lo)
}

/// Appends `v` as two big-endian bytes.
pub fn write_u16_be(buf: &mut Vec<u8>, v: u16)
    ensures
        final(buf)@ == old(buf)@ + be16_bytes(v),
{
    buf.push((v / 256) as u8);
    buf.push((v % 256) as u8);
    assert(final(buf)@ =~= old(buf)@ + be16_bytes(v));
}

/// Appends `v` as four big-endian bytes.
pub fn write_u32_be(buf: &mut Vec<u8>, v: u32)
    ensures
        final(buf)@ == old(buf)@ + be32_bytes(v),
{
    write_u16_be(buf, (v / 65536) as u16);
    write_u16_be(buf, (v % 65536) as u16);
    assert(final(buf)@ =~= old(buf)@ + be32_bytes(v));
}

/// `n` rounded up to a multiple of 4.
pub open spec fn pad4_spec(n: nat) -> nat {
    ((n + 3) / 4 * 4) as nat
}

/// `n` rounded up to a multiple of 4.
pub fn pad4(n: usize) -> (r: usize)
    requires
        n + 3 <= usize::MAX,
    ensures
        r == pad4_spec(n as nat),
        n <= r < n + 4,
{
    (n + 3) / 4 * 4
}

} // verus!
