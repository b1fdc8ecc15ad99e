//! Big-endian fixed-width integer fields, the only primitive the wire
//! formats of this crate are made of.
use vstd::prelude::*;

verus! {

/// The two big-endian bytes of a 16-bit value.
pub open spec fn be16(n: u16) -> Seq<u8> {
    seq![(n / 256) as u8, (n % 256) as u8]
}

/// The 16-bit value read back from two big-endian bytes.
pub open spec fn u16_of(hi: u8, lo: u8) -> u16 {
    (hi as u16 * 256 + lo as u16) as u16
}

/// The four big-endian bytes of a 32-bit value.
pub open spec fn be32(n: u32) -> Seq<u8> {
    seq![
        (n / 0x1000000) as u8,
        ((n / 0x10000) % 256) as u8,
        ((n / 256) % 256) as u8,
        (n % 256) as u8,
    ]
}

/// The 32-bit value read back from four big-endian bytes.
pub open spec fn u32_of(b0: u8, b1: u8, b2: u8, b3: u8) -> u32 {
    (b0 as u32 * 0x1000000 + b1 as u32 * 0x10000 + b2 as u32 * 256 + b3 as u32) as u32
}

/// Reading the two bytes of `be16` gives the value back.
pub proof fn lemma_be16_roundtrip(n: u16)
    ensures
        u16_of(be16(n)[0], be16(n)[1]) == n,
{
}

/// Reading the four bytes of `be32` gives the value back.
pub proof fn lemma_be32_roundtrip(n: u32)
    ensures
        u32_of(be32(n)[0], be32(n)[1], be32(n)[2], be32(n)[3]) == n,
{
    assert(n / 0x1000000 < 256) by (nonlinear_arith);
    assert(0x1000000 * (n / 0x1000000) + 0x10000 * ((n / 0x10000) % 256) + 256 * ((n / 256) % 256)
        + n % 256 == n) by (nonlinear_arith);
}

/// Appends the two big-endian bytes of `n` to `buf`.
pub fn put_u16(buf: &mut Vec<u8>, n: u16)
    ensures
        final(buf)@ == old(buf)@ + be16(n),
{
    buf.push((n / 256) as u8);
    buf.push((n % 256) as u8);
    proof {
        assert(buf@ =~= old(buf)@ + be16(n));
    }
}

/// Appends the four big-endian bytes of `n` to `buf`.
pub fn put_u32(buf: &mut Vec<u8>, n: u32)
    ensures
        final(buf)@ == old(buf)@ + be32(n),
{
    buf.push((n / 0x1000000) as u8);
    buf.push(((n / 0x10000) % 256) as u8);
    buf.push(((n / 256) % 256) as u8);
    buf.push((n % 256) as u8);
    proof {
        assert(n / 0x1000000 < 256) by (nonlinear_arith);
        assert(buf@ =~= old(buf)@ + be32(n));
    }
}

/// Reads the big-endian 16-bit field at position `i` of `data`.
pub fn get_u16(data: &[u8], i: usize) -> (n: u16)
    requires
        i + 2 <= data@.len(),
    ensures
        n == u16_of(data@[i as int], data@[i + 1]),
{
    let n = data.len();
    proof {
        assert(i + 2 <= n);
    }
    let hi = *vstd::slice::slice_index_get(data, i);
    let lo = *vstd::slice::slice_index_get(data, i + 1);
    hi as u16 * 256 + lo as u16
}

/// Reads the big-endian 32-bit field at position `i` of `data`.
pub fn get_u32(data: &[u8], i: usize) -> (n: u32)
    requires
        i + 4 <= data@.len(),
    ensures
        n == u32_of(data@[i as int], data@[i + 1], data@[i + 2], data@[i + 3]),
{
    let n = data.len();
    proof {
        assert(i + 4 <= n);
    }
    let b0 = *vstd::slice::slice_index_get(data, i);
    let b1 = *vstd::slice::slice_index_get(data, i + 1);
    let b2 = *vstd::slice::slice_index_get(data, i + 2);
    let b3 = *vstd::slice::slice_index_get(data, i + 3);
    b0 as u32 * 0x1000000 + b1 as u32 * 0x10000 + b2 as u32 * 256 + b3 as u32
}

/// Appends `src` whole to `buf`.
pub fn put_bytes(buf: &mut Vec<u8>, src: &[u8])
    ensures
        final(buf)@ == old(buf)@ + src@,
{
    buf.extend_from_slice(src);
}

/// Copies `data[i..j]` into a fresh vector.
pub fn copy_range(data: &[u8], i: usize, j: usize) -> (out: Vec<u8>)
    requires
        0 <= i <= j <= data@.len(),
    ensures
        out@ == data@.subrange(i as int, j as int),
{
    vstd::slice::slice_to_vec(vstd::slice::slice_subrange(data, i, j))
}

} // verus!
