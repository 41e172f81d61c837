//! Small byte-buffer helpers shared by the encoders.

use vstd::prelude::*;

verus! {

/// Appends every byte of `src` to `out`.
pub fn append_bytes(out: &mut Vec<u8>, src: &[u8])
    ensures
        final(out)@ == old(out)@ + src@,
{
    let ghost start = out@;
    let mut i: usize = 0;
    while i < src.len()
        invariant
            i <= src.len(),
            out@ == start + src@.subrange(0, i as int),
        decreases src.len() - i,
    {
        out.push(src[i]);
        i = i + 1;
        assert(out@ == start + src@.subrange(0, i as int));
    }
    assert(src@.subrange(0, i as int) == src@);
}

} // verus!

verus! {

/// The four big-endian bytes of `v`.
pub open spec fn be32(v: u32) -> Seq<u8> {
    seq![(v / 0x1000000) as u8, ((v / 0x10000) % 0x100) as u8, ((v / 0x100) % 0x100) as u8, (v % 0x100) as u8]
}

/// The two big-endian bytes of `v`.
pub open spec fn be16(v: u16) -> Seq<u8> {
    seq![(v / 0x100) as u8, (v % 0x100) as u8]
}

/// The number whose big-endian bytes are the first four of `b`.
pub open spec fn from_be32(b: Seq<u8>) -> u32 {
    (b[0] * 0x1000000 + b[1] * 0x10000 + b[2] * 0x100 + b[3]) as u32
}

/// The big-endian bytes of `v`.
pub fn u32_be_bytes(v: u32) -> (r: [u8; 4])
    ensures
        r@ == be32(v),
{
    let b0 = (v >> 24) as u8;
    let b1 = ((v >> 16) & 0xff) as u8;
    let b2 = ((v >> 8) & 0xff) as u8;
    let b3 = (v & 0xff) as u8;
    assert(b0 == (v / 0x1000000) as u8) by (bit_vector) requires b0 == (v >> 24) as u8;
    assert(b1 == ((v / 0x10000) % 0x100) as u8) by (bit_vector) requires b1 == ((v >> 16) & 0xff) as u8;
    assert(b2 == ((v / 0x100) % 0x100) as u8) by (bit_vector) requires b2 == ((v >> 8) & 0xff) as u8;
    assert(b3 == (v % 0x100) as u8) by (bit_vector) requires b3 == (v & 0xff) as u8;
    let r = [b0, b1, b2, b3];
    assert(r@ =~= be32(v));
    r
}

/// The big-endian bytes of `v`.
pub fn u16_be_bytes(v: u16) -> (r: [u8; 2])
    ensures
        r@ == be16(v),
{
    let b0 = (v >> 8) as u8;
    let b1 = (v & 0xff) as u8;
    assert(b0 == (v / 0x100) as u8) by (bit_vector) requires b0 == (v >> 8) as u8;
    assert(b1 == (v % 0x100) as u8) by (bit_vector) requires b1 == (v & 0xff) as u8;
    let r = [b0, b1];
    assert(r@ =~= be16(v));
    r
}

/// Reads a big-endian number from the four bytes at `pos`.
pub fn read_be32(b: &[u8], pos: usize) -> (r: u32)
    requires
        pos + 4 <= b@.len(),
    ensures
        r == from_be32(b@.subrange(pos as int, pos + 4)),
{
    let b0 = b[pos] as u32;
    let b1 = b[pos + 1] as u32;
    let b2 = b[pos + 2] as u32;
    let b3 = b[pos + 3] as u32;
    assert(b0 * 0x1000000 + b1 * 0x10000 + b2 * 0x100 + b3 <= u32::MAX) by (nonlinear_arith)
        requires b0 <= 255, b1 <= 255, b2 <= 255, b3 <= 255;
    b0 * 0x1000000 + b1 * 0x10000 + b2 * 0x100 + b3
}

/// Reading back the big-endian bytes of a number gives the number.
pub proof fn lemma_be32_roundtrip(v: u32)
    ensures
        from_be32(be32(v)) == v,
        be32(v).len() == 4,
{
    let b = be32(v);
    assert(b[0] * 0x1000000 + b[1] * 0x10000 + b[2] * 0x100 + b[3] == v) by (nonlinear_arith)
        requires
            b[0] == (v / 0x1000000) as u8,
            b[1] == ((v / 0x10000) % 0x100) as u8,
            b[2] == ((v / 0x100) % 0x100) as u8,
            b[3] == (v % 0x100) as u8,
            v <= u32::MAX;
}

} // verus!
