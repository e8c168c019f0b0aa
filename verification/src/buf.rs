use vstd::prelude::*;
use crate::cursor::{le16, le32};

verus! {

/// Appends the bytes of `data` to `out`.
pub fn append_bytes(out: &mut Vec<u8>, data: &[u8])
    ensures final(out)@ == old(out)@ + data@,
{
    let mut i: usize = 0;
    while i < data.len()
        invariant
            0 <= i <= data@.len(),
            out@ == old(out)@ + data@.take(i as int),
        decreases data@.len() - i,
    {
        out.push(data[i]);
        i = i + 1;
        proof { assert(data@.take(i as int) =~= data@.take(i - 1).push(data@[i - 1])); }
    }
    proof { assert(data@.take(i as int) =~= data@); }
}

/// A fresh vector holding the bytes of `data`.
pub fn copy_bytes(data: &[u8]) -> (v: Vec<u8>)
    ensures v@ == data@,
{
    let mut v: Vec<u8> = Vec::new();
    append_bytes(&mut v, data);
    proof { assert(v@ =~= data@); }
    v
}

/// The little-endian encoding of a `u32`.
pub open spec fn le32_bytes(x: u32) -> Seq<u8> {
    seq![(x % 0x100) as u8, ((x / 0x100) % 0x100) as u8, ((x / 0x1_0000) % 0x100) as u8, (x / 0x100_0000) as u8]
}

/// The little-endian encoding of a `u16`.
pub open spec fn le16_bytes(x: u16) -> Seq<u8> {
    seq![(x % 0x100) as u8, (x / 0x100) as u8]
}

/// Appends the little-endian encoding of `x`.
pub fn push_le32(out: &mut Vec<u8>, x: u32)
    ensures final(out)@ == old(out)@ + le32_bytes(x),
{
    out.push((x % 0x100) as u8);
    out.push(((x / 0x100) % 0x100) as u8);
    out.push(((x / 0x1_0000) % 0x100) as u8);
    out.push((x / 0x100_0000) as u8);
    proof { assert(out@ =~= old(out)@ + le32_bytes(x)); }
}

/// Appends the little-endian encoding of `x`.
pub fn push_le16(out: &mut Vec<u8>, x: u16)
    ensures final(out)@ == old(out)@ + le16_bytes(x),
{
    out.push((x % 0x100) as u8);
    out.push((x / 0x100) as u8);
    proof { assert(out@ =~= old(out)@ + le16_bytes(x)); }
}

/// Four bytes written by `le32_bytes` read back as the value written.
pub proof fn lemma_le32_read(s: Seq<u8>, i: int, x: u32)
    requires 0 <= i, i + 4 <= s.len(), s.subrange(i, i + 4) == le32_bytes(x),
    ensures le32(s, i) == x,
{
    assert(s[i] == le32_bytes(x)[0] && s[i + 1] == le32_bytes(x)[1]);
    assert(s[i + 2] == le32_bytes(x)[2] && s[i + 3] == le32_bytes(x)[3]);
    let b0: u32 = x % 0x100;
    let b1: u32 = (x / 0x100) % 0x100;
    let b2: u32 = (x / 0x1_0000) % 0x100;
    let b3: u32 = x / 0x100_0000;
    assert(b0 + 0x100 * b1 + 0x1_0000 * (b2 + 0x100 * b3) == x) by (bit_vector)
        requires b0 == x % 0x100, b1 == (x / 0x100) % 0x100, b2 == (x / 0x1_0000) % 0x100, b3 == x / 0x100_0000;
}

/// Two bytes written by `le16_bytes` read back as the value written.
pub proof fn lemma_le16_read(s: Seq<u8>, i: int, x: u16)
    requires 0 <= i, i + 2 <= s.len(), s.subrange(i, i + 2) == le16_bytes(x),
    ensures le16(s, i) == x,
{
    assert(s[i] == le16_bytes(x)[0] && s[i + 1] == le16_bytes(x)[1]);
    let b0: u16 = x % 0x100;
    let b1: u16 = x / 0x100;
    assert(b0 + 0x100 * b1 == x) by (bit_vector)
        requires b0 == x % 0x100, b1 == x / 0x100;
}

} // verus!
