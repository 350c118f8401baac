//! Bit-level model of the wire format.
//!
//! A scalar of width `w` is written least-significant bit first: the wire
//! image of raw value `v` is the sequence `bit_of(v, 0), .., bit_of(v, w-1)`.
//! Array elements are packed back to back with no padding.

use vstd::arithmetic::power2::{
    lemma2_to64, lemma_pow2_adds, lemma_pow2_pos, lemma_pow2_strictly_increases,
    lemma_pow2_unfold, pow2,
};
use vstd::bits::{lemma_u64_pow2_no_overflow, lemma_u64_shl_is_mul, lemma_u64_shr_is_div};
use vstd::prelude::*;

verus! {

/// Bit `i` of a raw scalar value; `false` beyond the machine width.
pub open spec fn bit_of(v: u64, i: int) -> bool {
    if 0 <= i < 64 {
        (v >> (i as u64)) & 1 == 1
    } else {
        false
    }
}

/// Wire image of a scalar of width `w`: its low `w` bits, LSB first.
pub open spec fn scalar_bits(v: u64, w: nat) -> Seq<bool> {
    Seq::new(w, |i: int| bit_of(v, i))
}

/// Wire image of a run of elements, each `ew` bits wide, back to back.
pub open spec fn elems_bits(ew: nat, vs: Seq<u64>) -> Seq<bool> {
    Seq::new(vs.len() * ew, |i: int| bit_of(vs[i / (ew as int)], i % (ew as int)))
}

/// `2^i` fits in a `u64` and equals the shifted one.
pub proof fn lemma_shift_is_pow2(i: u64)
    requires
        i < 64,
    ensures
        (1u64 << i) == pow2(i as nat),
        pow2(i as nat) <= u64::MAX,
{
    lemma_u64_pow2_no_overflow(i as nat);
    lemma_u64_shl_is_mul(1u64, i);
}

/// Setting bit `i` of a value whose bits at and above `i` are clear:
/// the result is the sum, bits below `i` are unchanged, bit `i` is set,
/// and the result stays below `2^(i+1)`.
pub proof fn lemma_set_bit(x: u64, i: u64)
    requires
        i < 64,
        x < pow2(i as nat),
    ensures
        (x | (1u64 << i)) == x + pow2(i as nat),
        x + pow2(i as nat) < pow2(i as nat + 1),
        forall|j: int| 0 <= j < i ==> bit_of(x | (1u64 << i), j) == bit_of(x, j),
        bit_of(x | (1u64 << i), i as int),
{
    lemma_shift_is_pow2(i);
    assert((x | (1u64 << i)) == x + (1u64 << i)) by (bit_vector)
        requires
            i < 64,
            x < (1u64 << i),
    ;
    lemma_pow2_unfold(i as nat + 1);
    assert forall|j: int| 0 <= j < i implies bit_of(x | (1u64 << i), j) == bit_of(x, j) by {
        let ju = j as u64;
        assert(((x | (1u64 << i)) >> ju) & 1 == (x >> ju) & 1) by (bit_vector)
            requires
                i < 64,
                ju < i,
        ;
    }
    assert(((x | (1u64 << i)) >> i) & 1 == 1) by (bit_vector)
        requires
            i < 64,
    ;
}

/// A value below `2^w` has no set bits at position `w` or above.
pub proof fn lemma_high_bits_zero(x: u64, w: nat)
    requires
        x < pow2(w),
    ensures
        forall|j: int| w <= j ==> !bit_of(x, j),
{
    assert forall|j: int| w <= j implies !bit_of(x, j) by {
        if j < 64 {
            let wu = w as u64;
            let ju = j as u64;
            lemma_shift_is_pow2(wu);
            assert((x >> ju) & 1 == 0) by (bit_vector)
                requires
                    wu <= ju < 64,
                    x < (1u64 << wu),
            ;
        }
    }
}

/// Two values below `2^w` with the same low `w` bits are equal.
pub proof fn lemma_bits_inj(a: u64, b: u64, w: nat)
    requires
        w <= 64,
        a < pow2(w),
        b < pow2(w),
        forall|j: int| 0 <= j < w ==> bit_of(a, j) == bit_of(b, j),
    ensures
        a == b,
    decreases w,
{
    if w == 0 {
        lemma2_to64();
    } else {
        let a1 = a >> 1u64;
        let b1 = b >> 1u64;
        lemma_u64_shr_is_div(a, 1);
        lemma_u64_shr_is_div(b, 1);
        lemma2_to64();
        lemma_pow2_unfold(w);
        assert(a1 < pow2((w - 1) as nat) && b1 < pow2((w - 1) as nat));
        assert forall|j: int| 0 <= j < w - 1 implies bit_of(a1, j) == bit_of(b1, j) by {
            let ju = j as u64;
            assert((a >> 1u64) >> ju == a >> ((ju + 1) as u64)) by (bit_vector)
                requires
                    ju < 63,
            ;
            assert((b >> 1u64) >> ju == b >> ((ju + 1) as u64)) by (bit_vector)
                requires
                    ju < 63,
            ;
            assert(bit_of(a, j + 1) == bit_of(b, j + 1));
        }
        lemma_bits_inj(a1, b1, (w - 1) as nat);
        assert(bit_of(a, 0) == bit_of(b, 0));
        assert((a >> 0u64) & 1 == a % 2) by (bit_vector);
        assert((b >> 0u64) & 1 == b % 2) by (bit_vector);
        assert(a == 2 * (a >> 1u64) + a % 2) by (bit_vector);
        assert(b == 2 * (b >> 1u64) + b % 2) by (bit_vector);
    }
}

/// Number of bits of a length prefix sized to hold a maximum count `cap`:
/// the least `k` with `cap < 2^k`.
pub open spec fn length_bits(cap: nat) -> nat
    decreases cap,
{
    if cap == 0 {
        0
    } else {
        1 + length_bits(cap / 2)
    }
}

/// The prefix width is large enough for every admissible count.
pub proof fn lemma_length_bits_holds_cap(cap: nat)
    ensures
        cap < pow2(length_bits(cap)),
    decreases cap,
{
    if cap == 0 {
        lemma2_to64();
    } else {
        lemma_length_bits_holds_cap(cap / 2);
        lemma_pow2_unfold(length_bits(cap));
    }
}

/// The prefix width is minimal: any width that holds `cap` is at least it.
pub proof fn lemma_length_bits_le(cap: nat, k: nat)
    requires
        cap < pow2(k),
    ensures
        length_bits(cap) <= k,
    decreases cap,
{
    if cap != 0 {
        if k == 0 {
            lemma2_to64();
        } else {
            lemma_pow2_unfold(k);
            lemma_length_bits_le(cap / 2, (k - 1) as nat);
        }
    }
}

} // verus!
