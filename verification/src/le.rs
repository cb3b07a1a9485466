//! Little-endian u32 fields.

use vstd::prelude::*;
use crate::error::Error;

verus! {

/// The four little-endian bytes of `x`.
pub open spec fn le32(x: u32) -> Seq<u8> {
    seq![(x & 0xFF) as u8, ((x >> 8u32) & 0xFF) as u8, ((x >> 16u32) & 0xFF) as u8, ((x >> 24u32) & 0xFF) as u8]
}

/// The u32 stored little-endian at `s[at..at + 4]`.
pub open spec fn from_le32(s: Seq<u8>, at: int) -> u32 {
    (s[at] as u32) | ((s[at + 1] as u32) << 8u32) | ((s[at + 2] as u32) << 16u32) | ((s[at + 3] as u32) << 24u32)
}

/// Reading back the bytes of a u32 gives the u32.
pub proof fn lemma_le32_roundtrip(x: u32)
    ensures
        from_le32(le32(x), 0) == x,
        le32(x).len() == 4,
{
    let b0 = (x & 0xFF) as u8;
    let b1 = ((x >> 8u32) & 0xFF) as u8;
    let b2 = ((x >> 16u32) & 0xFF) as u8;
    let b3 = ((x >> 24u32) & 0xFF) as u8;
    assert((b0 as u32) | ((b1 as u32) << 8u32) | ((b2 as u32) << 16u32) | ((b3 as u32) << 24u32) == x)
        by (bit_vector)
        requires
            b0 == (x & 0xFF) as u8,
            b1 == ((x >> 8u32) & 0xFF) as u8,
            b2 == ((x >> 16u32) & 0xFF) as u8,
            b3 == ((x >> 24u32) & 0xFF) as u8,
    ;
}

/// A field read at `at` only looks at the four bytes there.
pub proof fn lemma_from_le32_window(s: Seq<u8>, t: Seq<u8>, at: int, bt: int)
    requires
        0 <= at,
        at + 4 <= s.len(),
        0 <= bt,
        bt + 4 <= t.len(),
        s[at] == t[bt],
        s[at + 1] == t[bt + 1],
        s[at + 2] == t[bt + 2],
        s[at + 3] == t[bt + 3],
    ensures
        from_le32(s, at) == from_le32(t, bt),
{
}

/// Append the little-endian bytes of `x`.
pub fn put_u32(out: &mut Vec<u8>, x: u32)
    ensures
        final(out)@ == old(out)@ + le32(x),
{
    out.push((x & 0xFF) as u8);
    out.push(((x >> 8) & 0xFF) as u8);
    out.push(((x >> 16) & 0xFF) as u8);
    out.push(((x >> 24) & 0xFF) as u8);
    proof {
        assert(final(out)@ =~= old(out)@ + le32(x));
    }
}

/// Read the u32 stored little-endian at `data[at..at + 4]`.
pub fn get_u32(data: &[u8], at: usize) -> (x: u32)
    requires
        at + 4 <= data@.len(),
    ensures
        x == from_le32(data@, at as int),
{
    (data[at] as u32) | ((data[at + 1] as u32) << 8) | ((data[at + 2] as u32) << 16) | ((data[at + 3] as u32) << 24)
}

/// Read a u32 at the cursor and advance it, or fail with `Truncated` when
/// fewer than four bytes remain.
pub fn read_u32(data: &[u8], cursor: &mut usize) -> (res: Result<u32, Error>)
    ensures
        old(cursor) + 4 <= data@.len() ==> res == Ok::<u32, Error>(from_le32(data@, *old(cursor) as int))
            && *final(cursor) == *old(cursor) + 4,
        old(cursor) + 4 > data@.len() ==> res == Err::<u32, Error>(Error::Truncated)
            && *final(cursor) == *old(cursor),
{
    if *cursor > data.len() || data.len() - *cursor < 4 {
        return Err(Error::Truncated);
    }
    let x = get_u32(data, *cursor);
    *cursor = *cursor + 4;
    Ok(x)
}

} // verus!
