//! The running CRC-16 accumulator: reflected polynomial 0xA001, initial value
//! 0xFFFF. The polynomial/initial-value pair is chosen so that folding a
//! frame's own two little-endian CRC bytes back through the accumulator drives
//! the running value to exactly zero when the frame is intact.

use vstd::prelude::*;

verus! {

/// The seed of the running CRC before any byte has been folded in.
pub const CRC_INIT: u16 = 0xFFFF;

/// One shift iteration of the accumulator: shift right, folding in the
/// polynomial 0xA001 when the bit shifted out was set.
pub open spec fn crc16_shift(c: u16) -> u16 {
    if c & 1 != 0 {
        (c >> 1) ^ 0xA001
    } else {
        c >> 1
    }
}

/// `n` shift iterations applied to `c`.
pub open spec fn crc16_shifts(c: u16, n: nat) -> u16
    decreases n,
{
    if n == 0 {
        c
    } else {
        crc16_shift(crc16_shifts(c, (n - 1) as nat))
    }
}

/// Folding one byte into the running CRC: XOR the byte into the low bits,
/// then eight shift iterations.
pub open spec fn crc16_step(c: u16, b: u8) -> u16 {
    crc16_shifts(c ^ (b as u16), 8)
}

/// The running CRC after folding in every byte of `s`, left to right,
/// starting from `c`.
pub open spec fn crc16_fold(c: u16, s: Seq<u8>) -> u16
    decreases s.len(),
{
    if s.len() == 0 {
        c
    } else {
        crc16_step(crc16_fold(c, s.drop_last()), s.last())
    }
}

/// Folds one byte into the running CRC.
pub fn crc16_update(crc: u16, byte: u8) -> (r: u16)
    ensures
        r == crc16_step(crc, byte),
{
    let seed: u16 = crc ^ (byte as u16);
    let mut c: u16 = seed;
    let mut i: usize = 0;
    while i < 8
        invariant
            i <= 8,
            c == crc16_shifts(seed, i as nat),
        decreases 8 - i,
    {
        proof {
            assert(crc16_shifts(seed, (i + 1) as nat) == crc16_shift(crc16_shifts(seed, i as nat)));
        }
        if (c & 1) != 0 {
            c = (c >> 1) ^ 0xA001;
        } else {
            c = c >> 1;
        }
        i = i + 1;
    }
    c
}

/// The low byte of the running CRC, emitted first on the wire.
pub open spec fn crc_lo(c: u16) -> u8 {
    (c & 0xFF) as u8
}

/// The high byte of the running CRC, emitted second on the wire.
pub open spec fn crc_hi(c: u16) -> u8 {
    ((c >> 8) & 0xFF) as u8
}

/// Eight shift iterations of a value whose low byte is zero never see a set
/// low bit, so they reduce to a plain shift by eight.
proof fn lemma_crc16_shifts_high(v: u16)
    requires
        v & 0xFF == 0,
    ensures
        crc16_shifts(v, 8) == v >> 8,
{
    assert((v & 1) == 0 && ((v >> 1) & 1) == 0 && ((v >> 2) & 1) == 0 && ((v >> 3) & 1) == 0
        && ((v >> 4) & 1) == 0 && ((v >> 5) & 1) == 0 && ((v >> 6) & 1) == 0 && ((v >> 7) & 1)
        == 0 && ((v >> 1) >> 1) == (v >> 2) && ((v >> 2) >> 1) == (v >> 3) && ((v >> 3) >> 1) == (
    v >> 4) && ((v >> 4) >> 1) == (v >> 5) && ((v >> 5) >> 1) == (v >> 6) && ((v >> 6) >> 1) == (v
        >> 7) && ((v >> 7) >> 1) == (v >> 8)) by (bit_vector)
        requires
            v & 0xFF == 0,
    ;
    assert(crc16_shifts(v, 0) == v);
    assert(crc16_shifts(v, 1) == v >> 1);
    assert(crc16_shifts(v, 2) == v >> 2);
    assert(crc16_shifts(v, 3) == v >> 3);
    assert(crc16_shifts(v, 4) == v >> 4);
    assert(crc16_shifts(v, 5) == v >> 5);
    assert(crc16_shifts(v, 6) == v >> 6);
    assert(crc16_shifts(v, 7) == v >> 7);
    assert(crc16_shifts(v, 8) == v >> 8);
}

/// The CRC self-check: whatever the running value, folding in its own low
/// byte and then its own high byte drives the accumulator to exactly zero.
/// This is why a correctly received frame needs no compare-against-expected
/// step: its running CRC is zero at the end.
pub proof fn lemma_crc16_self_check(c: u16)
    ensures
        crc16_step(crc16_step(c, crc_lo(c)), crc_hi(c)) == 0,
{
    // Folding the low byte XORs it away, leaving only the high half.
    assert(c ^ ((((c & 0xFF) as u8)) as u16) == (c & 0xFF00)) by (bit_vector);
    assert((c & 0xFF00) & 0xFF == 0) by (bit_vector);
    lemma_crc16_shifts_high(c & 0xFF00);
    assert((c & 0xFF00) >> 8 == c >> 8) by (bit_vector);
    assert(crc16_step(c, crc_lo(c)) == c >> 8);
    // Folding the high byte XORs the remaining value with itself.
    assert((c >> 8) ^ (((((c >> 8) & 0xFF) as u8)) as u16) == 0) by (bit_vector);
    assert(0u16 & 0xFF == 0) by (bit_vector);
    lemma_crc16_shifts_high(0);
    assert(0u16 >> 8 == 0) by (bit_vector);
    assert(crc16_step(c >> 8, crc_hi(c)) == 0);
}

/// Folding the self-checking CRC bytes onto any byte sequence yields a
/// sequence whose running CRC is zero.
pub proof fn lemma_crc16_fold_self_check(s: Seq<u8>)
    ensures
        crc16_fold(CRC_INIT, s.push(crc_lo(crc16_fold(CRC_INIT, s))).push(
            crc_hi(crc16_fold(CRC_INIT, s)),
        )) == 0,
{
    let c = crc16_fold(CRC_INIT, s);
    let s1 = s.push(crc_lo(c));
    let s2 = s1.push(crc_hi(c));
    lemma_crc16_fold_push(CRC_INIT, s, crc_lo(c));
    lemma_crc16_fold_push(CRC_INIT, s1, crc_hi(c));
    lemma_crc16_self_check(c);
}

/// Appending one byte to a sequence folds it in last.
pub proof fn lemma_crc16_fold_push(c: u16, s: Seq<u8>, b: u8)
    ensures
        crc16_fold(c, s.push(b)) == crc16_step(crc16_fold(c, s), b),
{
    assert(s.push(b).drop_last() =~= s);
    assert(s.push(b).last() == b);
}

} // verus!
