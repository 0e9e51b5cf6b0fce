//! CRC-32/IEEE (reflected, polynomial 0xedb88320), bit by bit.
use vstd::prelude::*;

verus! {

/// One shift of the reflected register.
pub open spec fn crc_shift(v: u32) -> u32 {
    if v & 1 == 1 {
        (v >> 1) ^ 0xedb8_8320u32
    } else {
        v >> 1
    }
}

/// `n` shifts of the register.
pub open spec fn crc_shifts(v: u32, n: nat) -> u32
    decreases n,
{
    if n == 0 {
        v
    } else {
        crc_shift(crc_shifts(v, (n - 1) as nat))
    }
}

/// The register after absorbing one byte.
pub open spec fn crc_byte(v: u32, byte: u8) -> u32 {
    crc_shifts(v ^ (byte as u32), 8)
}

/// The register after absorbing `bytes` in order, starting from `v`.
pub open spec fn crc_fold(v: u32, bytes: Seq<u8>) -> u32
    decreases bytes.len(),
{
    if bytes.len() == 0 {
        v
    } else {
        crc_byte(crc_fold(v, bytes.drop_last()), bytes.last())
    }
}

/// CRC-32 of a byte sequence: start from all ones, absorb, complement.
pub open spec fn spec_crc(bytes: Seq<u8>) -> u32 {
    !crc_fold(0xffff_ffffu32, bytes)
}

/// Absorbing a concatenation is absorbing its parts in turn: the running form
/// `crc_update(a); crc_update(b)` computes the CRC of `a ++ b`.
pub proof fn lemma_crc_fold_append(v: u32, a: Seq<u8>, b: Seq<u8>)
    ensures
        crc_fold(v, a + b) == crc_fold(crc_fold(v, a), b),
    decreases b.len(),
{
    if b.len() == 0 {
        assert(a + b =~= a);
    } else {
        assert((a + b).drop_last() =~= a + b.drop_last());
        assert((a + b).last() == b.last());
        lemma_crc_fold_append(v, a, b.drop_last());
    }
}

/// The CRC of a concatenation equals the complement of the register obtained by
/// absorbing the first part from all ones and then the second part.
pub proof fn lemma_crc_concat(a: Seq<u8>, b: Seq<u8>)
    ensures
        spec_crc(a + b) == !crc_fold(crc_fold(0xffff_ffffu32, a), b),
{
    lemma_crc_fold_append(0xffff_ffffu32, a, b);
}

proof fn lemma_fold_prefix(v: u32, bytes: Seq<u8>, i: int)
    requires
        0 <= i < bytes.len(),
    ensures
        crc_fold(v, bytes.take(i + 1)) == crc_byte(crc_fold(v, bytes.take(i)), bytes[i]),
{
    assert(bytes.take(i + 1).drop_last() =~= bytes.take(i));
}

fn shift(v: u32) -> (r: u32)
    ensures
        r == crc_shift(v),
{
    if v & 1 == 1 {
        (v >> 1) ^ 0xedb8_8320u32
    } else {
        v >> 1
    }
}

/// CRC-32 of `bytes`.
pub fn crc(bytes: &[u8]) -> (r: u32)
    ensures
        r == spec_crc(bytes@),
{
    let mut value: u32 = 0xffff_ffffu32;
    crc_update(&mut value, bytes);
    !value
}

/// Running form: starting from `!0`, updating with `a` and then `b` and
/// complementing gives `crc(a ++ b)`, so a large table needs no temporary.
pub fn crc_update(value: &mut u32, bytes: &[u8])
    ensures
        *final(value) == crc_fold(*old(value), bytes@),
{
    let ghost start = *value;
    let mut i: usize = 0;
    while i < bytes.len()
        invariant
            0 <= i <= bytes@.len(),
            *value == crc_fold(start, bytes@.take(i as int)),
        decreases bytes@.len() - i,
    {
        let byte = bytes[i];
        let mut v: u32 = *value ^ (byte as u32);
        let ghost x = v;
        let mut round: usize = 0;
        while round < 8
            invariant
                0 <= round <= 8,
                v == crc_shifts(x, round as nat),
            decreases 8 - round,
        {
            v = shift(v);
            round = round + 1;
        }
        proof {
            lemma_fold_prefix(start, bytes@, i as int);
        }
        *value = v;
        i = i + 1;
    }
    proof {
        assert(bytes@.take(bytes@.len() as int) =~= bytes@);
    }
}

} // verus!
