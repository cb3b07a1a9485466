//! Variable-length integers: 7 data bits per byte, low bits first, high bit
//! set when another byte follows; signed values go through zigzag.

use vstd::prelude::*;
use crate::error::Error;

verus! {

/// The bytes of `v` as a VarUInt.
pub open spec fn varuint_bytes(v: u64) -> Seq<u8>
    decreases v,
{
    let byte = (v & 0x7F) as u8;
    let rest = v >> 7u64;
    if rest == 0 {
        seq![byte]
    } else {
        proof {
            assert(v >> 7u64 != 0 ==> v >> 7u64 < v) by (bit_vector);
        }
        seq![byte | 0x80u8] + varuint_bytes(rest)
    }
}

/// Zigzag: 0, -1, 1, -2, 2, ... map to 0, 1, 2, 3, 4, ...
pub open spec fn zigzag(v: i64) -> u64 {
    ((v << 1i64) ^ (v >> 63i64)) as u64
}

/// Inverse of zigzag.
pub open spec fn unzigzag(z: u64) -> i64 {
    ((z >> 1u64) as i64) ^ ((-((z & 1) as int)) as i64)
}

/// The bytes of `v` as a VarInt.
pub open spec fn varint_bytes(v: i64) -> Seq<u8> {
    varuint_bytes(zigzag(v))
}

/// Continue reading a VarUInt at `cur` with `acc` holding the bits read so
/// far and `shift` the position of the next seven.
pub open spec fn varuint_from(data: Seq<u8>, cur: int, acc: u64, shift: u64) -> Result<(u64, int), Error>
    decreases data.len() - cur,
{
    if cur < 0 || cur >= data.len() {
        Err(Error::Truncated)
    } else {
        let byte = data[cur];
        if shift >= 63 && byte > 1 {
            Err(Error::BadVector("varuint too large"))
        } else {
            let v = acc | (((byte & 0x7Fu8) as u64) << shift);
            if byte & 0x80u8 == 0 {
                Ok((v, cur + 1))
            } else {
                varuint_from(data, cur + 1, v, (shift + 7) as u64)
            }
        }
    }
}

/// The VarUInt at `cur`, with the position after it.
pub open spec fn parse_varuint(data: Seq<u8>, cur: int) -> Result<(u64, int), Error> {
    varuint_from(data, cur, 0, 0)
}

/// The VarInt at `cur`, with the position after it.
pub open spec fn parse_varint(data: Seq<u8>, cur: int) -> Result<(i64, int), Error> {
    match parse_varuint(data, cur) {
        Ok((z, c)) => Ok((unzigzag(z), c)),
        Err(e) => Err(e),
    }
}

/// Unzigzagging a zigzagged value gives the value back.
pub proof fn lemma_zigzag_roundtrip(v: i64)
    ensures
        unzigzag(zigzag(v)) == v,
{
    let z = ((v << 1i64) ^ (v >> 63i64)) as u64;
    assert(((z >> 1u64) as i64) ^ ((-((z & 1) as int)) as i64) == v) by (bit_vector)
        requires
            z == ((v << 1i64) ^ (v >> 63i64)) as u64,
    ;
}

/// Every VarUInt takes at least one byte.
pub proof fn lemma_varuint_len(v: u64)
    ensures
        1 <= varuint_bytes(v).len(),
{
}

/// Reading back the bytes of a VarUInt, with `acc` and `shift` the state of
/// a read already under way.
proof fn lemma_varuint_from(data: Seq<u8>, cur: int, acc: u64, shift: u64, r: u64)
    requires
        0 <= cur,
        cur + varuint_bytes(r).len() <= data.len(),
        data.subrange(cur, cur + varuint_bytes(r).len()) == varuint_bytes(r),
        shift <= 63,
        acc >> shift == 0,
        (r << shift) >> shift == r,
    ensures
        varuint_from(data, cur, acc, shift) == Ok::<(u64, int), Error>(
            (acc | (r << shift), cur + varuint_bytes(r).len()),
        ),
    decreases r,
{
    let bytes = varuint_bytes(r);
    let rest = r >> 7u64;
    assert(data[cur] == bytes[0]) by {
        assert(data.subrange(cur, cur + bytes.len())[0] == bytes[0]);
    }
    let byte = data[cur];
    assert(!(shift >= 63 && r > 1)) by (bit_vector)
        requires
            shift <= 63,
            (r << shift) >> shift == r,
    ;
    if rest == 0 {
        assert(bytes == seq![(r & 0x7F) as u8]);
        assert(byte == (r & 0x7F) as u8);
        assert(r >> 7u64 == 0 ==> (r & 0x7F) as u8 & 0x80u8 == 0 && ((((r & 0x7F) as u8)
            & 0x7Fu8) as u64) == r && (((r & 0x7F) as u8) as u64) == r) by (bit_vector);
        assert(((byte & 0x7Fu8) as u64) == r);
        assert(byte & 0x80u8 == 0);
        assert(!(shift >= 63 && byte > 1));
        assert(varuint_from(data, cur, acc, shift) == Ok::<(u64, int), Error>(
            (acc | (r << shift), cur + 1),
        ));
    } else {
        assert(byte == ((r & 0x7F) as u8) | 0x80u8);
        assert(r >> 7u64 != 0 ==> r >> 7u64 < r) by (bit_vector);
        let v = acc | (((byte & 0x7Fu8) as u64) << shift);
        assert(r >> 7u64 != 0 ==> (((r & 0x7F) as u8) | 0x80u8) & 0x80u8 != 0 && ((((r & 0x7F) as u8)
            | 0x80u8) > 1) && (((((r & 0x7F) as u8) | 0x80u8) & 0x7Fu8) as u64) == r & 0x7F)
            by (bit_vector);
        assert(shift <= 56 && (acc | ((r & 0x7F) << shift)) >> ((shift + 7) as u64) == 0 && ((r
            >> 7u64) << ((shift + 7) as u64)) >> ((shift + 7) as u64) == r >> 7u64 && (acc | ((r
            & 0x7F) << shift)) | ((r >> 7u64) << ((shift + 7) as u64)) == acc | (r << shift))
            by (bit_vector)
            requires
                r >> 7u64 != 0,
                shift <= 63,
                acc >> shift == 0,
                (r << shift) >> shift == r,
        ;
        let tail = varuint_bytes(rest);
        assert(bytes == seq![((r & 0x7F) as u8) | 0x80u8] + tail);
        assert(data.subrange(cur + 1, cur + 1 + tail.len()) =~= tail) by {
            assert forall|i: int| 0 <= i < tail.len() implies data.subrange(cur + 1, cur + 1
                + tail.len())[i] == tail[i] by {
                assert(data.subrange(cur, cur + bytes.len())[i + 1] == bytes[i + 1]);
            }
        }
        lemma_varuint_from(data, cur + 1, v, (shift + 7) as u64, rest);
    }
}

/// Reading back the bytes of a VarUInt gives its value and the position after it.
pub proof fn lemma_varuint_roundtrip(data: Seq<u8>, cur: int, v: u64)
    requires
        0 <= cur,
        cur + varuint_bytes(v).len() <= data.len(),
        data.subrange(cur, cur + varuint_bytes(v).len()) == varuint_bytes(v),
    ensures
        parse_varuint(data, cur) == Ok::<(u64, int), Error>((v, cur + varuint_bytes(v).len())),
{
    assert((v << 0u64) >> 0u64 == v && 0u64 | (v << 0u64) == v && 0u64 >> 0u64 == 0) by (bit_vector);
    lemma_varuint_from(data, cur, 0, 0, v);
}

/// Reading back the bytes of a VarInt gives its value.
pub proof fn lemma_varint_roundtrip(data: Seq<u8>, cur: int, v: i64)
    requires
        0 <= cur,
        cur + varint_bytes(v).len() <= data.len(),
        data.subrange(cur, cur + varint_bytes(v).len()) == varint_bytes(v),
    ensures
        parse_varint(data, cur) == Ok::<(i64, int), Error>((v, cur + varint_bytes(v).len())),
{
    lemma_varuint_roundtrip(data, cur, zigzag(v));
    lemma_zigzag_roundtrip(v);
}

/// Append `v` as a VarUInt.
pub fn put_varuint(out: &mut Vec<u8>, v_in: u64)
    ensures
        final(out)@ == old(out)@ + varuint_bytes(v_in),
{
    let mut v = v_in;
    let ghost v0 = v;
    let ghost start = out@;
    loop
        invariant
            start == old(out)@,
            v0 == v_in,
            start + varuint_bytes(v0) == out@ + varuint_bytes(v),
        decreases v,
    {
        let byte = (v & 0x7F) as u8;
        let ghost old_v = v;
        v = v >> 7;
        if v == 0 {
            out.push(byte);
            proof {
                assert(varuint_bytes(old_v) == seq![byte]);
                assert(out@ =~= start + varuint_bytes(v0));
            }
            return;
        }
        out.push(byte | 0x80);
        proof {
            assert(old_v >> 7u64 != 0 ==> old_v >> 7u64 < old_v) by (bit_vector);
            assert(varuint_bytes(old_v) == seq![byte | 0x80u8] + varuint_bytes(v));
            assert(out@ + varuint_bytes(v) =~= (out@.drop_last()) + varuint_bytes(old_v));
        }
    }
}

/// Append `v` as a VarInt.
pub fn put_varint(out: &mut Vec<u8>, v: i64)
    ensures
        final(out)@ == old(out)@ + varint_bytes(v),
{
    let z = ((v << 1) ^ (v >> 63)) as u64;
    put_varuint(out, z);
}

/// Read the VarUInt at the cursor and move the cursor past it.
pub fn get_varuint(data: &[u8], cursor: &mut usize) -> (res: Result<u64, Error>)
    ensures
        match parse_varuint(data@, *old(cursor) as int) {
            Ok((v, c)) => res == Ok::<u64, Error>(v) && *final(cursor) as int == c,
            Err(e) => res == Err::<u64, Error>(e),
        },
{
    let mut v: u64 = 0;
    let mut shift: u64 = 0;
    let ghost start = *cursor as int;
    loop
        invariant
            start == *old(cursor) as int,
            shift <= 63,
            shift % 7 == 0,
            parse_varuint(data@, start) == varuint_from(data@, *cursor as int, v, shift),
        decreases data@.len() - *cursor,
    {
        if *cursor >= data.len() {
            return Err(Error::Truncated);
        }
        let byte = data[*cursor];
        *cursor = *cursor + 1;
        if shift >= 63 && byte > 1 {
            return Err(Error::BadVector("varuint too large"));
        }
        proof {
            assert(byte <= 1 ==> byte & 0x80 == 0) by (bit_vector);
        }
        v = v | (((byte & 0x7F) as u64) << shift);
        if byte & 0x80 == 0 {
            return Ok(v);
        }
        shift = shift + 7;
    }
}

/// Read the VarInt at the cursor and move the cursor past it.
pub fn get_varint(data: &[u8], cursor: &mut usize) -> (res: Result<i64, Error>)
    ensures
        match parse_varint(data@, *old(cursor) as int) {
            Ok((v, c)) => res == Ok::<i64, Error>(v) && *final(cursor) as int == c,
            Err(e) => res == Err::<i64, Error>(e),
        },
{
    let z = get_varuint(data, cursor)?;
    let sign = (z & 1) as i64;
    proof {
        assert(z & 1 <= 1) by (bit_vector);
    }
    let r = ((z >> 1) as i64) ^ -sign;
    proof {
        assert(-sign == (-((z & 1) as int)) as i64);
    }
    Ok(r)
}

} // verus!
