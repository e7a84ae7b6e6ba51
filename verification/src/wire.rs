//! Big-endian integers and byte sequences, the building blocks of the
//! on-disk formats.

use vstd::prelude::*;

verus! {

/// The two bytes of `x`, most significant first.
pub open spec fn be16(x: u16) -> Seq<u8> {
    seq![(x >> 8u16) as u8, x as u8]
}

/// The four bytes of `x`, most significant first.
pub open spec fn be32(x: u32) -> Seq<u8> {
    seq![(x >> 24u32) as u8, (x >> 16u32) as u8, (x >> 8u32) as u8, x as u8]
}

/// The big-endian `u16` stored in `d[i]`, `d[i + 1]`.
pub open spec fn u16_at(d: Seq<u8>, i: int) -> u16 {
    ((d[i] as u16) << 8u16) | (d[i + 1] as u16)
}

/// The big-endian `u32` stored in `d[i] .. d[i + 4]`.
pub open spec fn u32_at(d: Seq<u8>, i: int) -> u32 {
    ((d[i] as u32) << 24u32) | ((d[i + 1] as u32) << 16u32) | ((d[i + 2] as u32) << 8u32) | (
    d[i + 3] as u32)
}

/// Reading back the big-endian bytes of a `u16` gives the number.
pub proof fn lemma_be16_roundtrip(x: u16)
    ensures
        u16_at(be16(x), 0) == x,
{
    let b = be16(x);
    let hi = (x >> 8u16) as u8;
    let lo = x as u8;
    assert(b[0] == hi && b[1] == lo);
    assert((((hi as u16) << 8u16) | (lo as u16)) == x) by (bit_vector)
        requires
            hi == (x >> 8u16) as u8,
            lo == x as u8,
    ;
}

/// Reading back the big-endian bytes of a `u32` gives the number.
pub proof fn lemma_be32_roundtrip(x: u32)
    ensures
        u32_at(be32(x), 0) == x,
{
    let b = be32(x);
    let b0 = (x >> 24u32) as u8;
    let b1 = (x >> 16u32) as u8;
    let b2 = (x >> 8u32) as u8;
    let b3 = x as u8;
    assert(b[0] == b0 && b[1] == b1 && b[2] == b2 && b[3] == b3);
    assert((((b0 as u32) << 24u32) | ((b1 as u32) << 16u32) | ((b2 as u32) << 8u32) | (b3 as u32))
        == x) by (bit_vector)
        requires
            b0 == (x >> 24u32) as u8,
            b1 == (x >> 16u32) as u8,
            b2 == (x >> 8u32) as u8,
            b3 == x as u8,
    ;
}

/// The two bytes of `x` are its base-256 digits, most significant first.
pub proof fn lemma_be16_value(x: u16)
    ensures
        be16(x).len() == 2,
        be16(x)[0] as int * 256 + be16(x)[1] as int == x as int,
{
    let hi = (x >> 8u16) as u8;
    let lo = x as u8;
    assert(hi as u16 == x / 256u16 && lo as u16 == x % 256u16) by (bit_vector)
        requires
            hi == (x >> 8u16) as u8,
            lo == x as u8,
    ;
    assert(x as int == 256 * (x as int / 256) + x as int % 256);
}

/// The four bytes of `x` are its base-256 digits, most significant first.
pub proof fn lemma_be32_value(x: u32)
    ensures
        be32(x).len() == 4,
        be32(x)[0] as int * 16777216 + be32(x)[1] as int * 65536 + be32(x)[2] as int * 256
            + be32(x)[3] as int == x as int,
{
    let b0 = (x >> 24u32) as u8;
    let b1 = (x >> 16u32) as u8;
    let b2 = (x >> 8u32) as u8;
    let b3 = x as u8;
    assert(b0 as u32 == x / 16777216u32 && b1 as u32 == (x / 65536u32) % 256u32 && b2 as u32 == (x
        / 256u32) % 256u32 && b3 as u32 == x % 256u32) by (bit_vector)
        requires
            b0 == (x >> 24u32) as u8,
            b1 == (x >> 16u32) as u8,
            b2 == (x >> 8u32) as u8,
            b3 == x as u8,
    ;
    let xi = x as int;
    assert(xi == 16777216 * (xi / 16777216) + 65536 * ((xi / 65536) % 256) + 256 * ((xi / 256)
        % 256) + xi % 256) by (nonlinear_arith)
        requires
            0 <= xi,
    ;
}

/// Appends the big-endian bytes of `x`.
pub fn push_u16_be(out: &mut Vec<u8>, x: u16)
    ensures
        final(out)@ == old(out)@ + be16(x),
{
    out.push((x >> 8u16) as u8);
    out.push(x as u8);
}

/// Appends the big-endian bytes of `x`.
pub fn push_u32_be(out: &mut Vec<u8>, x: u32)
    ensures
        final(out)@ == old(out)@ + be32(x),
{
    out.push((x >> 24u32) as u8);
    out.push((x >> 16u32) as u8);
    out.push((x >> 8u32) as u8);
    out.push(x as u8);
}

/// Appends every byte of `src`, in order.
pub fn push_bytes(out: &mut Vec<u8>, src: &[u8])
    ensures
        final(out)@ == old(out)@ + src@,
{
    let ghost start = out@;
    let mut i: usize = 0;
    while i < src.len()
        invariant
            i <= src.len(),
            out@ == start + src@.subrange(0, i as int),
        decreases src.len() - i,
    {
        out.push(src[i]);
        i = i + 1;
        assert(src@.subrange(0, i as int) == src@.subrange(0, (i - 1) as int).push(src@[i - 1]));
    }
    assert(src@.subrange(0, src.len() as int) == src@);
}

/// The big-endian `u16` at `d[i]`.
pub fn read_u16_be(d: &[u8], i: usize) -> (r: u16)
    requires
        i + 2 <= d@.len(),
    ensures
        r == u16_at(d@, i as int),
{
    ((d[i] as u16) << 8u16) | (d[i + 1] as u16)
}

/// The big-endian `u32` at `d[i]`.
pub fn read_u32_be(d: &[u8], i: usize) -> (r: u32)
    requires
        i + 4 <= d@.len(),
    ensures
        r == u32_at(d@, i as int),
{
    ((d[i] as u32) << 24u32) | ((d[i + 1] as u32) << 16u32) | ((d[i + 2] as u32) << 8u32) | (d[i
        + 3] as u32)
}

/// Copies `d[i .. i + N]` into an array.
pub fn read_array<const N: usize>(d: &[u8], i: usize) -> (r: [u8; N])
    requires
        i + N <= d@.len(),
    ensures
        r@ == d@.subrange(i as int, i + N),
{
    let mut a = [0u8; N];
    let mut k: usize = 0;
    while k < N
        invariant
            k <= N,
            i + N <= d.len(),
            a@.len() == N,
            forall|j: int| 0 <= j < k ==> a@[j] == d@[i + j],
        decreases N - k,
    {
        a[k] = d[i + k];
        k = k + 1;
    }
    assert(a@ =~= d@.subrange(i as int, i + N));
    a
}

} // verus!
