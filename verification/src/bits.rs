use vstd::prelude::*;
use vstd::arithmetic::div_mod::{lemma_div_denominator, lemma_mod_breakdown};
use vstd::arithmetic::power2::{lemma2_to64, lemma_pow2_pos, lemma_pow2_unfold, pow2};

verus! {

/// Bit `k` of `byte`, bit 0 being the least significant.
pub open spec fn bit(byte: u8, k: nat) -> bool {
    (byte as nat / pow2(k)) % 2 == 1
}

/// The `count` bits of `byte` from bit `from` upwards, lowest first.
pub open spec fn bits(byte: u8, from: nat, count: nat) -> Seq<bool> {
    Seq::new(count, |k: int| bit(byte, (from + k) as nat))
}

/// Masking with a single set bit and comparing with zero reads that bit.
pub proof fn lemma_mask_reads_bit(byte: u8)
    ensures
        (0b0000_0001u8 & byte != 0) == bit(byte, 0),
        (0b0000_0010u8 & byte != 0) == bit(byte, 1),
        (0b0000_0100u8 & byte != 0) == bit(byte, 2),
        (0b0000_1000u8 & byte != 0) == bit(byte, 3),
        (0b0001_0000u8 & byte != 0) == bit(byte, 4),
        (0b0010_0000u8 & byte != 0) == bit(byte, 5),
        (0b0100_0000u8 & byte != 0) == bit(byte, 6),
        (0b1000_0000u8 & byte != 0) == bit(byte, 7),
{
    lemma2_to64();
    assert((0b0000_0001u8 & byte != 0) == ((byte / 1) % 2 == 1)) by (bit_vector);
    assert((0b0000_0010u8 & byte != 0) == ((byte / 2) % 2 == 1)) by (bit_vector);
    assert((0b0000_0100u8 & byte != 0) == ((byte / 4) % 2 == 1)) by (bit_vector);
    assert((0b0000_1000u8 & byte != 0) == ((byte / 8) % 2 == 1)) by (bit_vector);
    assert((0b0001_0000u8 & byte != 0) == ((byte / 16) % 2 == 1)) by (bit_vector);
    assert((0b0010_0000u8 & byte != 0) == ((byte / 32) % 2 == 1)) by (bit_vector);
    assert((0b0100_0000u8 & byte != 0) == ((byte / 64) % 2 == 1)) by (bit_vector);
    assert((0b1000_0000u8 & byte != 0) == ((byte / 128) % 2 == 1)) by (bit_vector);
}

/// The number that `levels` spell in binary, the first being the lowest bit.
pub open spec fn spelled(levels: Seq<bool>) -> nat
    decreases levels.len(),
{
    if levels.len() == 0 {
        0
    } else if levels[0] {
        2 * spelled(levels.drop_first()) + 1
    } else {
        2 * spelled(levels.drop_first())
    }
}

/// A run of bits spells what is left of the byte once the bits below the run
/// are divided away and those above it are cut off.
pub proof fn lemma_bits_spell_run(byte: u8, from: nat, count: nat)
    ensures
        spelled(bits(byte, from, count)) == (byte as nat / pow2(from)) % pow2(count),
    decreases count,
{
    let shifted = byte as nat / pow2(from);
    lemma_pow2_pos(from);
    if count == 0 {
        lemma2_to64();
    } else {
        let rest = (count - 1) as nat;
        assert(bits(byte, from, count).drop_first() =~= bits(byte, from + 1, rest));
        assert(bits(byte, from, count)[0] == bit(byte, from));
        lemma_bits_spell_run(byte, from + 1, rest);
        lemma_pow2_unfold(from + 1);
        lemma_pow2_unfold(count);
        lemma_pow2_pos(rest);
        lemma_div_denominator(byte as int, pow2(from) as int, 2);
        lemma_mod_breakdown(shifted as int, 2, pow2(rest) as int);
        assert(byte as nat / pow2(from + 1) == shifted / 2) by {
            assert(pow2(from) * 2 == pow2(from + 1));
        }
        assert(pow2(count) == 2 * pow2(rest));
    }
}

/// The eight bits of a byte spell the byte, its upper four bits spell how
/// many sixteens it holds, and its lower four bits spell the rest.
pub proof fn lemma_bits_spell(byte: u8)
    ensures
        spelled(bits(byte, 0, 8)) == byte,
        spelled(bits(byte, 4, 4)) == byte / 16,
        spelled(bits(byte, 0, 4)) == byte % 16,
        byte == 16 * spelled(bits(byte, 4, 4)) + spelled(bits(byte, 0, 4)),
{
    lemma2_to64();
    lemma_bits_spell_run(byte, 0, 8);
    lemma_bits_spell_run(byte, 4, 4);
    lemma_bits_spell_run(byte, 0, 4);
}

} // verus!
