//! Bit utilities: rounding a 32-bit integer up to a power of two, and the
//! ceiling of the base-2 logarithm computed through a de Bruijn multiply.

use vstd::prelude::*;

verus! {

use vstd::arithmetic::power2::{pow2, lemma2_to64, lemma_pow2_unfold, lemma_pow2_pos};
use vstd::bits::{lemma_u32_low_bits_mask_is_mod, lemma_u32_pow2_no_overflow};
use vstd::bits::low_bits_mask;

/// The ceiling of log2: the least `k` with `n <= pow2(k)`. Zero for `n <= 1`.
pub open spec fn clog2(n: nat) -> nat
    decreases n,
{
    if n <= 1 {
        0
    } else {
        1 + clog2(((n + 1) / 2) as nat)
    }
}

/// `clog2` is the least exponent whose power of two reaches `n`:
/// `pow2(clog2(n))` lies in `[n, 2n)`.
pub proof fn lemma_clog2_bounds(n: nat)
    requires
        n >= 1,
    ensures
        n <= pow2(clog2(n)),
        pow2(clog2(n)) < 2 * n,
    decreases n,
{
    if n == 1 {
        lemma2_to64();
    } else {
        let c = ((n + 1) / 2) as nat;
        assert(1 <= c < n);
        lemma_clog2_bounds(c);
        let k = clog2(c);
        assert(clog2(n) == k + 1);
        lemma_pow2_unfold((k + 1) as nat);
        assert(pow2((k + 1) as nat) == 2 * pow2(k));
        assert(n <= 2 * c);
        if n % 2 == 0 {
            assert(2 * c == n);
        } else {
            assert(2 * c == n + 1);
            if k >= 1 {
                lemma_pow2_unfold(k);
                assert(pow2(k) == 2 * pow2((k - 1) as nat));
                assert(pow2(k) % 2 == 0);
                assert(pow2(k) != n);
            } else {
                lemma2_to64();
                assert(pow2(k) == 1);
                assert(c <= 1);
            }
        }
    }
}

/// `clog2` is monotonic.
pub proof fn lemma_clog2_mono(a: nat, b: nat)
    requires
        a <= b,
    ensures
        clog2(a) <= clog2(b),
    decreases b,
{
    if a <= 1 {
    } else {
        let ca = ((a + 1) / 2) as nat;
        let cb = ((b + 1) / 2) as nat;
        assert(ca <= cb);
        assert(cb < b);
        lemma_clog2_mono(ca, cb);
    }
}

/// On an exact power of two, `clog2` recovers the exponent.
pub proof fn lemma_clog2_pow2(k: nat)
    ensures
        clog2(pow2(k)) == k,
    decreases k,
{
    if k == 0 {
        lemma2_to64();
    } else {
        lemma_pow2_unfold(k);
        lemma_pow2_pos((k - 1) as nat);
        let n = pow2(k);
        assert(n == 2 * pow2((k - 1) as nat));
        assert(n >= 2);
        assert((n + 1) / 2 == pow2((k - 1) as nat));
        lemma_clog2_pow2((k - 1) as nat);
    }
}

/// A smaller power of two divides a larger one.
pub proof fn lemma_pow2_divides(a: nat, b: nat)
    requires
        a <= b,
    ensures
        pow2(b) % pow2(a) == 0,
{
    vstd::arithmetic::power2::lemma_pow2_adds(a, (b - a) as nat);
    lemma_pow2_pos(a);
    vstd::arithmetic::div_mod::lemma_mod_multiples_basic(
        pow2((b - a) as nat) as int,
        pow2(a) as int,
    );
    vstd::arithmetic::mul::lemma_mul_is_commutative(pow2(a) as int, pow2((b - a) as nat) as int);
}

/// Round a 32-bit integer up to the nearest power of two, by the classic
/// fill-right-then-increment sequence.
pub fn round_up_to_power2(size: u32) -> (r: u32)
    requires
        1 <= size <= 0x8000_0000,
    ensures
        r == pow2(clog2(size as nat)),
{
    let v0: u32 = size - 1;
    let v1: u32 = v0 | (v0 >> 1);
    let v2: u32 = v1 | (v1 >> 2);
    let v3: u32 = v2 | (v2 >> 4);
    let v4: u32 = v3 | (v3 >> 8);
    let v5: u32 = v4 | (v4 >> 16);
    proof {
        assert(v5 <= 0xFFFF_FFFEu32) by (bit_vector)
            requires
                v0 == size - 1,
                v1 == v0 | (v0 >> 1u32),
                v2 == v1 | (v1 >> 2u32),
                v3 == v2 | (v2 >> 4u32),
                v4 == v3 | (v3 >> 8u32),
                v5 == v4 | (v4 >> 16u32),
                1 <= size <= 0x8000_0000u32,
        ;
    }
    let r: u32 = v5 + 1;
    proof {
        let q = clog2(size as nat);
        lemma_clog2_bounds(size as nat);
        lemma2_to64();
        lemma_clog2_pow2(31);
        lemma_clog2_mono(size as nat, pow2(31));
        assert(q <= 31);
        lemma_u32_pow2_no_overflow(q);
        let pu = pow2(q) as u32;
        lemma_u32_low_bits_mask_is_mod(pu, q);
        assert(low_bits_mask(q) == pow2(q) - 1);
        assert(pu % (pow2(q) as u32) == 0);
        assert(pu & ((pu - 1) as u32) == 0);
        assert(r == pu) by (bit_vector)
            requires
                v0 == size - 1,
                v1 == v0 | (v0 >> 1u32),
                v2 == v1 | (v1 >> 2u32),
                v3 == v2 | (v2 >> 4u32),
                v4 == v3 | (v3 >> 8u32),
                v5 == v4 | (v4 >> 16u32),
                r == v5 + 1,
                1 <= size <= 0x8000_0000u32,
                pu >= 1,
                pu & ((pu - 1) as u32) == 0,
                size <= pu,
                pu < 2 * size,
        ;
    }
    r
}

/// Ceiling of log2 of a 32-bit integer: round up to a power of two, then
/// recover the exponent through a 32-entry de Bruijn table indexed by the top
/// five bits of a multiply by the de Bruijn constant.
pub fn round_up_log2(size: u32) -> (r: usize)
    requires
        1 <= size <= 0x8000_0000,
    ensures
        r == clog2(size as nat),
{
    let v: u32 = round_up_to_power2(size);
    let m: u32 = v.wrapping_mul(0x06EB14F9);
    let idx: usize = (m >> 27) as usize;
    let r: usize = match idx {
        0 => 0,
        1 => 1,
        2 => 16,
        3 => 2,
        4 => 29,
        5 => 17,
        6 => 3,
        7 => 22,
        8 => 30,
        9 => 20,
        10 => 18,
        11 => 11,
        12 => 13,
        13 => 4,
        14 => 7,
        15 => 23,
        16 => 31,
        17 => 15,
        18 => 28,
        19 => 21,
        20 => 19,
        21 => 10,
        22 => 12,
        23 => 6,
        24 => 14,
        25 => 27,
        26 => 9,
        27 => 5,
        28 => 26,
        29 => 8,
        30 => 25,
        _ => 24,
    };
    proof {
        let q = clog2(size as nat);
        lemma_clog2_bounds(size as nat);
        lemma2_to64();
        lemma_clog2_pow2(31);
        lemma_clog2_mono(size as nat, pow2(31));
        assert(q <= 31);
        assert((v == 0x1u32 ==> m >> 27u32 == 0) && (v == 0x2u32 ==> m >> 27u32 == 1) && (v
            == 0x4u32 ==> m >> 27u32 == 3) && (v == 0x8u32 ==> m >> 27u32 == 6) && (v == 0x10u32
            ==> m >> 27u32 == 13) && (v == 0x20u32 ==> m >> 27u32 == 27) && (v == 0x40u32 ==> m
            >> 27u32 == 23) && (v == 0x80u32 ==> m >> 27u32 == 14) && (v == 0x100u32 ==> m
            >> 27u32 == 29) && (v == 0x200u32 ==> m >> 27u32 == 26) && (v == 0x400u32 ==> m
            >> 27u32 == 21) && (v == 0x800u32 ==> m >> 27u32 == 11) && (v == 0x1000u32 ==> m
            >> 27u32 == 22) && (v == 0x2000u32 ==> m >> 27u32 == 12) && (v == 0x4000u32 ==> m
            >> 27u32 == 24) && (v == 0x8000u32 ==> m >> 27u32 == 17) && (v == 0x10000u32 ==> m
            >> 27u32 == 2) && (v == 0x20000u32 ==> m >> 27u32 == 5) && (v == 0x40000u32 ==> m
            >> 27u32 == 10) && (v == 0x80000u32 ==> m >> 27u32 == 20) && (v == 0x100000u32 ==> m
            >> 27u32 == 9) && (v == 0x200000u32 ==> m >> 27u32 == 19) && (v == 0x400000u32 ==> m
            >> 27u32 == 7) && (v == 0x800000u32 ==> m >> 27u32 == 15) && (v == 0x1000000u32 ==> m
            >> 27u32 == 31) && (v == 0x2000000u32 ==> m >> 27u32 == 30) && (v == 0x4000000u32
            ==> m >> 27u32 == 28) && (v == 0x8000000u32 ==> m >> 27u32 == 25) && (v
            == 0x10000000u32 ==> m >> 27u32 == 18) && (v == 0x20000000u32 ==> m >> 27u32 == 4)
            && (v == 0x40000000u32 ==> m >> 27u32 == 8) && (v == 0x80000000u32 ==> m >> 27u32
            == 16)) by (bit_vector)
            requires
                m == (v * 0x06EB14F9) % 0x1_0000_0000,
        ;
        if q == 0 {
            assert(v == 0x1u32);
            assert(idx == 0);
        } else if q == 1 {
            assert(v == 0x2u32);
            assert(idx == 1);
        } else if q == 2 {
            assert(v == 0x4u32);
            assert(idx == 3);
        } else if q == 3 {
            assert(v == 0x8u32);
            assert(idx == 6);
        } else if q == 4 {
            assert(v == 0x10u32);
            assert(idx == 13);
        } else if q == 5 {
            assert(v == 0x20u32);
            assert(idx == 27);
        } else if q == 6 {
            assert(v == 0x40u32);
            assert(idx == 23);
        } else if q == 7 {
            assert(v == 0x80u32);
            assert(idx == 14);
        } else if q == 8 {
            assert(v == 0x100u32);
            assert(idx == 29);
        } else if q == 9 {
            assert(v == 0x200u32);
            assert(idx == 26);
        } else if q == 10 {
            assert(v == 0x400u32);
            assert(idx == 21);
        } else if q == 11 {
            assert(v == 0x800u32);
            assert(idx == 11);
        } else if q == 12 {
            assert(v == 0x1000u32);
            assert(idx == 22);
        } else if q == 13 {
            assert(v == 0x2000u32);
            assert(idx == 12);
        } else if q == 14 {
            assert(v == 0x4000u32);
            assert(idx == 24);
        } else if q == 15 {
            assert(v == 0x8000u32);
            assert(idx == 17);
        } else if q == 16 {
            assert(v == 0x10000u32);
            assert(idx == 2);
        } else if q == 17 {
            assert(v == 0x20000u32);
            assert(idx == 5);
        } else if q == 18 {
            assert(v == 0x40000u32);
            assert(idx == 10);
        } else if q == 19 {
            assert(v == 0x80000u32);
            assert(idx == 20);
        } else if q == 20 {
            assert(v == 0x100000u32);
            assert(idx == 9);
        } else if q == 21 {
            assert(v == 0x200000u32);
            assert(idx == 19);
        } else if q == 22 {
            assert(v == 0x400000u32);
            assert(idx == 7);
        } else if q == 23 {
            assert(v == 0x800000u32);
            assert(idx == 15);
        } else if q == 24 {
            assert(v == 0x1000000u32);
            assert(idx == 31);
        } else if q == 25 {
            assert(v == 0x2000000u32);
            assert(idx == 30);
        } else if q == 26 {
            assert(v == 0x4000000u32);
            assert(idx == 28);
        } else if q == 27 {
            assert(v == 0x8000000u32);
            assert(idx == 25);
        } else if q == 28 {
            assert(v == 0x10000000u32);
            assert(idx == 18);
        } else if q == 29 {
            assert(v == 0x20000000u32);
            assert(idx == 4);
        } else if q == 30 {
            assert(v == 0x40000000u32);
            assert(idx == 8);
        } else {
            assert(q == 31);
            assert(v == 0x80000000u32);
            assert(idx == 16);
        }
    }
    r
}

} // verus!
