//! Little-endian integer encoding in byte buffers.

use vstd::prelude::*;

verus! {

/// The 4 little-endian bytes of `x`.
pub open spec fn u32_le(x: u32) -> Seq<u8> {
    seq![(x % 256) as u8, ((x / 256) % 256) as u8, ((x / 65536) % 256) as u8, ((x / 16777216) % 256) as u8]
}

/// The 2 little-endian bytes of `x`.
pub open spec fn u16_le(x: u16) -> Seq<u8> {
    seq![(x % 256) as u8, ((x / 256) % 256) as u8]
}

/// The value of the 4 little-endian bytes of `s` at `pos`.
pub open spec fn le32_at(s: Seq<u8>, pos: int) -> int {
    s[pos] + s[pos + 1] * 256 + s[pos + 2] * 65536 + s[pos + 3] * 16777216
}

/// The value of the 2 little-endian bytes of `s` at `pos`.
pub open spec fn le16_at(s: Seq<u8>, pos: int) -> int {
    s[pos] + s[pos + 1] * 256
}

/// Reading back the bytes of `x` gives `x`.
pub proof fn lemma_u32_le_roundtrip(x: u32, s: Seq<u8>, pos: int)
    requires
        0 <= pos,
        pos + 4 <= s.len(),
        s.subrange(pos, pos + 4) == u32_le(x),
    ensures
        le32_at(s, pos) == x,
{
    assert(s[pos] == u32_le(x)[0]);
    assert(s[pos + 1] == u32_le(x)[1]);
    assert(s[pos + 2] == u32_le(x)[2]);
    assert(s[pos + 3] == u32_le(x)[3]);
}

/// Reading back the bytes of `x` gives `x`.
pub proof fn lemma_u16_le_roundtrip(x: u16, s: Seq<u8>, pos: int)
    requires
        0 <= pos,
        pos + 2 <= s.len(),
        s.subrange(pos, pos + 2) == u16_le(x),
    ensures
        le16_at(s, pos) == x,
{
    assert(s[pos] == u16_le(x)[0]);
    assert(s[pos + 1] == u16_le(x)[1]);
}

/// Reads the little-endian `u32` at `pos`.
pub fn read_u32_le(data: &[u8], pos: usize) -> (r: u32)
    requires
        pos + 4 <= data@.len(),
    ensures
        r == le32_at(data@, pos as int),
{
    let b0 = data[pos] as u32;
    let b1 = data[pos + 1] as u32;
    let b2 = data[pos + 2] as u32;
    let b3 = data[pos + 3] as u32;
    b0 + b1 * 256 + b2 * 65536 + b3 * 16777216
}

/// Reads the little-endian `u16` at `pos`.
pub fn read_u16_le(data: &[u8], pos: usize) -> (r: u16)
    requires
        pos + 2 <= data@.len(),
    ensures
        r == le16_at(data@, pos as int),
{
    let b0 = data[pos] as u16;
    let b1 = data[pos + 1] as u16;
    b0 + b1 * 256
}

/// Appends the little-endian bytes of `x`.
pub fn push_u32_le(buf: &mut Vec<u8>, x: u32)
    ensures
        final(buf)@ == old(buf)@ + u32_le(x),
{
    buf.push((x % 256) as u8);
    buf.push(((x / 256) % 256) as u8);
    buf.push(((x / 65536) % 256) as u8);
    buf.push(((x / 16777216) % 256) as u8);
    assert(buf@ =~= old(buf)@ + u32_le(x));
}

/// Appends the little-endian bytes of `x`.
pub fn push_u16_le(buf: &mut Vec<u8>, x: u16)
    ensures
        final(buf)@ == old(buf)@ + u16_le(x),
{
    buf.push((x % 256) as u8);
    buf.push(((x / 256) % 256) as u8);
    assert(buf@ =~= old(buf)@ + u16_le(x));
}

/// Appends the bytes of `src`.
pub fn push_bytes(buf: &mut Vec<u8>, src: &[u8])
    ensures
        final(buf)@ == old(buf)@ + src@,
{
    let ghost start = buf@;
    let mut i: usize = 0;
    while i < src.len()
        invariant
            i <= src@.len(),
            buf@ == start + src@.subrange(0, i as int),
        decreases src@.len() - i,
    {
        buf.push(src[i]);
        i += 1;
        assert(buf@ =~= start + src@.subrange(0, i as int));
    }
    assert(src@.subrange(0, src@.len() as int) =~= src@);
}

/// A copy of the bytes of `src`.
pub fn bytes_to_vec(src: &[u8]) -> (r: Vec<u8>)
    ensures
        r@ == src@,
{
    let mut v: Vec<u8> = Vec::new();
    push_bytes(&mut v, src);
    assert(v@ =~= src@);
    v
}

} // verus!

verus! {

/// The 8 little-endian bytes of `x`.
pub open spec fn u64_le(x: u64) -> Seq<u8> {
    u32_le((x % 0x1_0000_0000) as u32) + u32_le((x / 0x1_0000_0000) as u32)
}

/// Appends the little-endian bytes of `x`.
pub fn push_u64_le(buf: &mut Vec<u8>, x: u64)
    ensures
        final(buf)@ == old(buf)@ + u64_le(x),
{
    push_u32_le(buf, (x % 0x1_0000_0000) as u32);
    push_u32_le(buf, (x / 0x1_0000_0000) as u32);
    assert(buf@ =~= old(buf)@ + u64_le(x));
}

} // verus!
