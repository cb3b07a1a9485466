//! CRC32 with the reflected IEEE polynomial 0xEDB88320, as used per chunk.

use vstd::prelude::*;

verus! {

/// One bit step of the reflected CRC32 register.
pub open spec fn crc_bit(c: u32) -> u32 {
    if c & 1 != 0 { 0xEDB8_8320u32 ^ (c >> 1u32) } else { c >> 1u32 }
}

/// Eight bit steps: the register after a whole byte has been shifted out.
pub open spec fn crc_bits8(c: u32) -> u32 {
    crc_bit(crc_bit(crc_bit(crc_bit(crc_bit(crc_bit(crc_bit(crc_bit(c))))))))
}

/// `crc_bit` applied `k` times.
pub open spec fn crc_bits(c: u32, k: nat) -> u32
    decreases k,
{
    if k == 0 { c } else { crc_bit(crc_bits(c, (k - 1) as nat)) }
}

/// The register after feeding one byte.
pub open spec fn crc_update(c: u32, b: u8) -> u32 {
    crc_bits8(c ^ (b as u32))
}

/// The register after feeding `data` in order, starting from `c`.
pub open spec fn crc_fold(c: u32, data: Seq<u8>) -> u32
    decreases data.len(),
{
    if data.len() == 0 {
        c
    } else {
        crc_update(crc_fold(c, data.drop_last()), data.last())
    }
}

/// The CRC32 of `data`: register preset to all ones, final complement.
pub open spec fn crc32_spec(data: Seq<u8>) -> u32 {
    crc_fold(0xFFFF_FFFFu32, data) ^ 0xFFFF_FFFFu32
}

/// The concatenation of `parts`, in order.
pub open spec fn concat_parts(parts: Seq<Seq<u8>>) -> Seq<u8>
    decreases parts.len(),
{
    if parts.len() == 0 {
        Seq::empty()
    } else {
        concat_parts(parts.drop_last()) + parts.last()
    }
}

/// Feeding `a` and then `b` is feeding `a + b`.
pub proof fn lemma_crc_fold_append(c: u32, a: Seq<u8>, b: Seq<u8>)
    ensures
        crc_fold(c, a + b) == crc_fold(crc_fold(c, a), b),
    decreases b.len(),
{
    if b.len() == 0 {
        assert(a + b =~= a);
    } else {
        lemma_crc_fold_append(c, a, b.drop_last());
        assert((a + b).drop_last() =~= a + b.drop_last());
        assert((a + b).last() == b.last());
    }
}

/// The CRC of a concatenation of two byte strings depends only on the CRC
/// register after the first and on the second.
pub proof fn lemma_crc32_concat(a: Seq<u8>, b: Seq<u8>)
    ensures
        crc32_spec(a + b) == crc_fold(crc_fold(0xFFFF_FFFFu32, a), b) ^ 0xFFFF_FFFFu32,
{
    lemma_crc_fold_append(0xFFFF_FFFFu32, a, b);
}

proof fn lemma_bits8_unfold(c: u32)
    ensures
        crc_bits(c, 8) == crc_bits8(c),
{
    reveal_with_fuel(crc_bits, 9);
}

/// The byte step only looks at the low byte of the register; the high bytes
/// shift down unchanged.
proof fn lemma_bits8_split(x: u32)
    ensures
        crc_bits8(x) == crc_bits8(x & 0xFF) ^ (x >> 8u32),
{
    assert(crc_bits8(x) == crc_bits8(x & 0xFF) ^ (x >> 8u32)) by (bit_vector);
}

/// The lookup table: entry `n` is the register after eight bit steps from `n`.
fn build_table() -> (table: Vec<u32>)
    ensures
        table@.len() == 256,
        forall|n: int| 0 <= n < 256 ==> #[trigger] table@[n] == crc_bits8(n as u32),
{
    let mut table: Vec<u32> = Vec::new();
    let mut n: u32 = 0;
    while n < 256
        invariant
            n <= 256,
            table@.len() == n,
            forall|m: int| 0 <= m < n ==> #[trigger] table@[m] == crc_bits8(m as u32),
        decreases 256 - n,
    {
        let mut c: u32 = n;
        let mut k: u32 = 0;
        while k < 8
            invariant
                k <= 8,
                c == crc_bits(n, k as nat),
            decreases 8 - k,
        {
            c = if c & 1 != 0 { 0xEDB8_8320u32 ^ (c >> 1u32) } else { c >> 1u32 };
            k = k + 1;
        }
        proof {
            lemma_bits8_unfold(n);
        }
        table.push(c);
        n = n + 1;
    }
    table
}

/// CRC32 over the concatenation of `parts`.
pub fn crc32_parts(parts: &[&[u8]]) -> (crc: u32)
    ensures
        crc == crc32_spec(concat_parts(parts@.map_values(|p: &[u8]| p@))),
{
    let table = build_table();
    let ghost views = parts@.map_values(|p: &[u8]| p@);
    let mut c: u32 = 0xFFFF_FFFF;
    let mut i: usize = 0;
    while i < parts.len()
        invariant
            i <= parts@.len(),
            views == parts@.map_values(|p: &[u8]| p@),
            table@.len() == 256,
            forall|n: int| 0 <= n < 256 ==> #[trigger] table@[n] == crc_bits8(n as u32),
            c == crc_fold(0xFFFF_FFFFu32, concat_parts(views.take(i as int))),
        decreases parts.len() - i,
    {
        let part: &[u8] = parts[i];
        let ghost before = concat_parts(views.take(i as int));
        let mut j: usize = 0;
        while j < part.len()
            invariant
                j <= part@.len(),
                table@.len() == 256,
                forall|n: int| 0 <= n < 256 ==> #[trigger] table@[n] == crc_bits8(n as u32),
                c == crc_fold(0xFFFF_FFFFu32, before + part@.take(j as int)),
            decreases part.len() - j,
        {
            let byte = part[j];
            let ghost prev = c;
            let x: u32 = c ^ (byte as u32);
            proof {
                lemma_bits8_split(x);
                assert(x & 0xFF < 256) by (bit_vector);
                assert((x & 0xFF) as u32 == ((c ^ (byte as u32)) & 0xFF) as u32);
            }
            proof {
                assert(prev >> 8u32 == x >> 8u32) by (bit_vector)
                    requires x == prev ^ (byte as u32);
            }
            c = table[(x & 0xFF) as usize] ^ (c >> 8u32);
            proof {
                let s = before + part@.take(j + 1);
                assert(s.drop_last() =~= before + part@.take(j as int));
                assert(s.last() == byte);
            }
            j = j + 1;
        }
        proof {
            assert(part@.take(part@.len() as int) =~= part@);
            assert(views.take(i + 1).drop_last() =~= views.take(i as int));
            assert(views.take(i + 1).last() == part@);
        }
        i = i + 1;
    }
    proof {
        assert(views.take(parts@.len() as int) =~= views);
    }
    c ^ 0xFFFF_FFFF
}

/// CRC32 of one byte string.
pub fn crc32(data: &[u8]) -> (crc: u32)
    ensures
        crc == crc32_spec(data@),
{
    let parts: [&[u8]; 1] = [data];
    let r = crc32_parts(&parts);
    proof {
        let views = parts@.map_values(|p: &[u8]| p@);
        assert(views.len() == 1);
        assert(views.drop_last() =~= Seq::<Seq<u8>>::empty());
        assert(views.last() == data@);
        reveal_with_fuel(concat_parts, 2);
        assert(concat_parts(views) =~= data@);
    }
    r
}

// ---- error detection ----

/// One bit step loses nothing: different registers stay different.
proof fn lemma_crc_bit_injective(x: u32, y: u32)
    ensures
        crc_bit(x) == crc_bit(y) ==> x == y,
{
    assert(crc_bit(x) == crc_bit(y) ==> x == y) by (bit_vector);
}

/// A byte step loses nothing either.
proof fn lemma_bits8_injective(x: u32, y: u32)
    ensures
        crc_bits8(x) == crc_bits8(y) ==> x == y,
{
    let (x1, y1) = (crc_bit(x), crc_bit(y));
    let (x2, y2) = (crc_bit(x1), crc_bit(y1));
    let (x3, y3) = (crc_bit(x2), crc_bit(y2));
    let (x4, y4) = (crc_bit(x3), crc_bit(y3));
    let (x5, y5) = (crc_bit(x4), crc_bit(y4));
    let (x6, y6) = (crc_bit(x5), crc_bit(y5));
    let (x7, y7) = (crc_bit(x6), crc_bit(y6));
    lemma_crc_bit_injective(x7, y7);
    lemma_crc_bit_injective(x6, y6);
    lemma_crc_bit_injective(x5, y5);
    lemma_crc_bit_injective(x4, y4);
    lemma_crc_bit_injective(x3, y3);
    lemma_crc_bit_injective(x2, y2);
    lemma_crc_bit_injective(x1, y1);
    lemma_crc_bit_injective(x, y);
}

/// Feeding the same bytes to two different registers leaves them different.
proof fn lemma_fold_injective(c1: u32, c2: u32, r: Seq<u8>)
    ensures
        crc_fold(c1, r) == crc_fold(c2, r) ==> c1 == c2,
    decreases r.len(),
{
    if r.len() > 0 {
        let f1 = crc_fold(c1, r.drop_last());
        let f2 = crc_fold(c2, r.drop_last());
        let b = r.last();
        lemma_bits8_injective(f1 ^ (b as u32), f2 ^ (b as u32));
        assert(f1 ^ (b as u32) == f2 ^ (b as u32) ==> f1 == f2) by (bit_vector);
        lemma_fold_injective(c1, c2, r.drop_last());
    }
}

/// Changing any one byte of the data changes its CRC32.
pub proof fn lemma_crc32_detects_byte_change(data: Seq<u8>, i: int, v: u8)
    requires
        0 <= i < data.len(),
        v != data[i],
    ensures
        crc32_spec(data.update(i, v)) != crc32_spec(data),
{
    let a = data.subrange(0, i);
    let r = data.subrange(i + 1, data.len() as int);
    let x = data[i];
    assert(data =~= a + seq![x] + r);
    assert(data.update(i, v) =~= a + seq![v] + r);
    let ca = crc_fold(0xFFFF_FFFFu32, a);
    lemma_crc_fold_append(0xFFFF_FFFFu32, a + seq![x], r);
    lemma_crc_fold_append(0xFFFF_FFFFu32, a + seq![v], r);
    lemma_crc_fold_append(0xFFFF_FFFFu32, a, seq![x]);
    lemma_crc_fold_append(0xFFFF_FFFFu32, a, seq![v]);
    assert(seq![x].drop_last() =~= Seq::<u8>::empty());
    assert(seq![v].drop_last() =~= Seq::<u8>::empty());
    assert(crc_fold(ca, Seq::<u8>::empty()) == ca);
    assert(seq![x].last() == x);
    assert(seq![v].last() == v);
    assert(crc_fold(ca, seq![x]) == crc_update(ca, x));
    assert(crc_fold(ca, seq![v]) == crc_update(ca, v));
    assert(ca ^ (x as u32) != ca ^ (v as u32)) by (bit_vector)
        requires
            x != v,
    ;
    lemma_bits8_injective(ca ^ (x as u32), ca ^ (v as u32));
    lemma_fold_injective(crc_update(ca, x), crc_update(ca, v), r);
    let fx = crc_fold(crc_update(ca, x), r);
    let fv = crc_fold(crc_update(ca, v), r);
    assert(fx != fv ==> fx ^ 0xFFFF_FFFFu32 != fv ^ 0xFFFF_FFFFu32) by (bit_vector);
}

/// Data with bit `bit` of byte `i` flipped.
pub open spec fn flip_bit(data: Seq<u8>, i: int, bit: u8) -> Seq<u8> {
    data.update(i, data[i] ^ (1u8 << bit))
}

/// Flipping a bit changes the byte it is in.
pub proof fn lemma_flip_changes_byte(x: u8, bit: u8)
    requires
        bit < 8,
    ensures
        x ^ (1u8 << bit) != x,
{
    assert(bit < 8 ==> x ^ (1u8 << bit) != x) by (bit_vector);
}

/// Flipping any single bit of the data changes its CRC32.
pub proof fn lemma_crc32_detects_bit_flip(data: Seq<u8>, i: int, bit: u8)
    requires
        0 <= i < data.len(),
        bit < 8,
    ensures
        crc32_spec(flip_bit(data, i, bit)) != crc32_spec(data),
{
    lemma_flip_changes_byte(data[i], bit);
    lemma_crc32_detects_byte_change(data, i, data[i] ^ (1u8 << bit));
}


} // verus!
