//! Byte-level building blocks shared by the demuxer and the encoder:
//! little-endian 16-bit fields, powers of two, and flattened palettes.

use vstd::prelude::*;

verus! {

/// The 16-bit value stored by two little-endian bytes.
pub open spec fn le16(lo: u8, hi: u8) -> u16 {
    (lo + 256 * hi) as u16
}

/// The two little-endian bytes that store a 16-bit value.
pub open spec fn u16_le_bytes(x: u16) -> Seq<u8> {
    seq![(x % 256) as u8, (x / 256) as u8]
}

/// Read the 16-bit little-endian value stored at `pos`.
pub fn read_le16(input: &[u8], pos: usize) -> (x: u16)
    requires
        pos + 2 <= input@.len(),
    ensures
        x == le16(input@[pos as int], input@[pos + 1]),
{
    let lo = input[pos];
    let hi = input[pos + 1];
    lo as u16 + 256 * (hi as u16)
}

/// Append every byte of `src` to `out`.
pub fn append_bytes(out: &mut Vec<u8>, src: &[u8])
    ensures
        final(out)@ == old(out)@ + src@,
{
    let ghost out0 = old(out)@;
    let mut i: usize = 0;
    while i < src.len()
        invariant
            i <= src@.len(),
            out@ == out0 + src@.take(i as int),
        decreases src@.len() - i,
    {
        out.push(src[i]);
        assert(out@ =~= out0 + src@.take(i + 1));
        i = i + 1;
    }
    assert(out@ =~= out0 + src@);
}

/// Append the two little-endian bytes of `x` to `out`.
pub fn push_le16(out: &mut Vec<u8>, x: u16)
    ensures
        final(out)@ == old(out)@ + u16_le_bytes(x),
{
    out.push((x % 256) as u8);
    out.push((x / 256) as u8);
    assert(out@ =~= old(out)@ + u16_le_bytes(x));
}

} // verus!
