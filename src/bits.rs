//! Extraction of a contiguous bit range from a fixed-width word.
use vstd::arithmetic::power2::*;
use vstd::bits::*;
use vstd::prelude::*;

verus! {

/// The mask with the low `width` bits set, for `1 <= width <= 64`.
pub open spec fn field_mask(width: u64) -> u64 {
    if width >= 64 {
        0xffff_ffff_ffff_ffffu64
    } else {
        ((1u64 << width) - 1) as u64
    }
}

/// The bit range `[lo, hi]` (inclusive) of `word`, moved down to bit 0.
pub open spec fn field(word: u64, lo: u64, hi: u64) -> u64 {
    (word >> lo) & field_mask((hi - lo + 1) as u64)
}

/// Reads the bits `lo..=hi` of `word`: the word shifted right by `lo` and
/// masked to `hi - lo + 1` bits.
pub fn extract(word: u64, lo: u32, hi: u32) -> (r: u64)
    requires
        lo <= hi < 64,
    ensures
        r == field(word, lo as u64, hi as u64),
        r as nat == (word as nat / pow2(lo as nat)) % pow2((hi - lo + 1) as nat),
{
    let width: u32 = hi - lo + 1;
    let mask: u64 = if width == 64 {
        0xffff_ffff_ffff_ffffu64
    } else {
        proof {
            lemma_u64_pow2_no_overflow(width as nat);
            lemma_u64_shl_is_mul(1u64, width as u64);
        }
        (1u64 << width) - 1
    };
    let shifted: u64 = word >> lo;
    let r: u64 = shifted & mask;
    proof {
        lemma_u64_shr_is_div(word, lo as u64);
        if width == 64 {
            assert(shifted & 0xffff_ffff_ffff_ffffu64 == shifted) by (bit_vector);
            lemma2_to64();
            lemma2_to64_rest();
            assert(lo == 0);
            assert(word as nat / 1 == word as nat);
            vstd::arithmetic::div_mod::lemma_small_mod(word as nat, pow2(64));
        } else {
            lemma_u64_pow2_no_overflow(width as nat);
            lemma_u64_shl_is_mul(1u64, width as u64);
            lemma_u64_low_bits_mask_is_mod(shifted, width as nat);
            assert(mask == low_bits_mask(width as nat) as u64);
        }
    }
    r
}

/// Whether bit `i` of `v` is set.
pub open spec fn bit_set(v: u64, i: nat) -> bool {
    (v >> (i as u64)) & 1 == 1
}

} // verus!
