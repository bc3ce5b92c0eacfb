//! Arena geometry: the configuration constants, the derived layout quantities
//! (size-class count, page count, header extent, post-header surplus), and the
//! predicate a configuration must satisfy before an arena may be built on it.

use vstd::prelude::*;

verus! {

use vstd::arithmetic::power2::{pow2, is_pow2, is_pow2_exists, is_pow2_equiv, lemma_pow2, lemma_pow2_adds, lemma_pow2_pos, lemma2_to64};
use vstd::arithmetic::power::pow;
use vstd::arithmetic::div_mod::{lemma_mod_multiples_basic, lemma_fundamental_div_mod};
use vstd::arithmetic::mul::{lemma_mul_inequality, lemma_mul_is_commutative};
use crate::bits::{clog2, lemma_clog2_pow2, lemma_clog2_mono, round_up_to_power2, round_up_log2};

/// Number of sub-page size classes: class `l` covers blocks of
/// `min * pow2(l)` bytes, for `0 <= l < levels`; the largest class has blocks
/// of a full page.
pub open spec fn levels(min: int, page_size: int) -> int {
    clog2(page_size as nat) - clog2(min as nat) + 1
}

/// Number of pages the arena is carved into.
pub open spec fn page_count(length: int, page_size: int) -> int {
    length / page_size
}

/// Byte size of a block of size class `level`.
pub open spec fn block_size(min: int, level: int) -> int {
    min * pow2(level as nat)
}

/// Words of in-arena metadata: the init marker, one free-list head per size
/// class, and one used/free word per page.
pub open spec fn header_words(length: int, min: int, page_size: int) -> int {
    1 + levels(min, page_size) + page_count(length, page_size)
}

/// `x` rounded up to the nearest multiple of `m`.
pub open spec fn round_up_to(x: int, m: int) -> int {
    if x % m == 0 {
        x
    } else {
        x + m - x % m
    }
}

/// Byte offset, within the first page, of the post-header surplus block: the
/// end of the header region rounded up to a multiple of the minimum block
/// size.
pub open spec fn surplus_offset(length: int, min: int, page_size: int) -> int {
    round_up_to(8 * header_words(length, min, page_size), min)
}

/// What a usable configuration must satisfy: a nonzero base, an arena that
/// fits in the address space, a power-of-two minimum block size of at least a
/// word, a power-of-two page size that divides the arena length and leaves
/// room for more than one page, and a header (plus its rounding to the
/// surplus) that fits strictly inside the first page.
pub open spec fn valid_config(base: int, length: int, min: int, page_size: int) -> bool {
    &&& 0 < base
    &&& base + length <= usize::MAX
    &&& 8 <= min
    &&& is_pow2(min)
    &&& min <= page_size
    &&& is_pow2(page_size)
    &&& page_size <= 0x8000_0000
    &&& page_size < length
    &&& length % page_size == 0
    &&& page_size % min == 0
    &&& surplus_offset(length, min, page_size) < page_size
}

/// A positive integer is a power of two exactly when rounding it through
/// `pow2(clog2(_))` gives it back.
pub proof fn lemma_is_pow2_iff_round_trip(n: nat)
    requires
        n >= 1,
    ensures
        is_pow2(n as int) <==> n == pow2(clog2(n)),
{
    if n == pow2(clog2(n)) {
        lemma_pow2(clog2(n));
        assert(pow(2, clog2(n)) == n);
        assert(is_pow2_exists(n as int));
        is_pow2_equiv(n as int);
    }
    if is_pow2(n as int) {
        is_pow2_equiv(n as int);
        let i = choose|i: nat| pow(2, i) == n;
        lemma_pow2(i);
        assert(pow2(i) == n);
        lemma_clog2_pow2(i);
    }
}

/// Divisibility is transitive: a multiple of `m` is a multiple of every
/// divisor of `m`.
pub proof fn lemma_divides_transitive(a: int, m: int, d: int)
    requires
        m > 0,
        d > 0,
        a % m == 0,
        m % d == 0,
    ensures
        a % d == 0,
{
    lemma_fundamental_div_mod(a, m);
    lemma_fundamental_div_mod(m, d);
    let q = a / m;
    let s = m / d;
    assert(a == (d * s) * q);
    assert(a == (s * q) * d) by (nonlinear_arith)
        requires
            a == (d * s) * q,
    ;
    lemma_mod_multiples_basic(s * q, d);
}

/// Two distinct multiples of `m` are at least `m` apart.
pub proof fn lemma_multiple_below(x: int, y: int, m: int)
    requires
        m > 0,
        x % m == 0,
        y % m == 0,
        x < y,
    ensures
        x + m <= y,
{
    lemma_fundamental_div_mod(x, m);
    lemma_fundamental_div_mod(y, m);
    assert(x + m <= y) by (nonlinear_arith)
        requires
            m > 0,
            x == m * (x / m),
            y == m * (y / m),
            x < y,
    ;
}

/// The layout facts every arena operation leans on, all consequences of
/// `valid_config`.
pub proof fn lemma_config_properties(base: int, length: int, min: int, page_size: int)
    requires
        valid_config(base, length, min, page_size),
    ensures
        pow2(clog2(min as nat)) == min,
        pow2(clog2(page_size as nat)) == page_size,
        3 <= clog2(min as nat),
        clog2(min as nat) <= clog2(page_size as nat),
        clog2(page_size as nat) <= 31,
        1 <= levels(min, page_size) <= 29,
        block_size(min, levels(min, page_size) - 1) == page_size,
        2 <= page_count(length, page_size),
        page_count(length, page_size) * page_size == length,
        length % 8 == 0,
        page_size % 8 == 0,
        min % 8 == 0,
        length % min == 0,
        4 <= header_words(length, min, page_size),
        8 * header_words(length, min, page_size) <= surplus_offset(length, min, page_size),
        surplus_offset(length, min, page_size) % min == 0,
        surplus_offset(length, min, page_size) % 8 == 0,
{
    let lm = clog2(min as nat);
    let lp = clog2(page_size as nat);
    lemma_is_pow2_iff_round_trip(min as nat);
    lemma_is_pow2_iff_round_trip(page_size as nat);
    lemma2_to64();
    lemma_clog2_pow2(3);
    lemma_clog2_mono(8, min as nat);
    lemma_clog2_mono(min as nat, page_size as nat);
    lemma_clog2_pow2(31);
    lemma_clog2_mono(page_size as nat, pow2(31));
    assert(3 <= lm && lm <= lp <= 31);
    lemma_pow2_adds(lm, (lp - lm) as nat);
    assert(block_size(min, levels(min, page_size) - 1) == page_size);
    // The page count and the arena length.
    lemma_fundamental_div_mod(length, page_size);
    let pc = page_count(length, page_size);
    assert(length == page_size * pc);
    assert(pc >= 2) by (nonlinear_arith)
        requires
            length == page_size * pc,
            length > page_size,
            page_size > 0,
    ;
    lemma_mul_is_commutative(page_size, pc);
    // Word alignment of the constants.
    lemma_pow2_adds(3, (lm - 3) as nat);
    assert(min == 8 * pow2((lm - 3) as nat));
    lemma_mod_multiples_basic(pow2((lm - 3) as nat) as int, 8);
    lemma_mul_is_commutative(8, pow2((lm - 3) as nat) as int);
    assert(min % 8 == 0);
    lemma_divides_transitive(page_size, min, 8);
    lemma_divides_transitive(length, page_size, min);
    lemma_divides_transitive(length, page_size, 8);
    // The surplus offset.
    let he = 8 * header_words(length, min, page_size);
    let so = surplus_offset(length, min, page_size);
    if he % min == 0 {
        assert(so == he && so % min == 0);
    } else {
        lemma_fundamental_div_mod(he, min);
        assert(so == min * (he / min) + min);
        assert(so == (he / min + 1) * min) by (nonlinear_arith)
            requires
                so == min * (he / min) + min,
        ;
        lemma_mod_multiples_basic(he / min + 1, min);
        assert(so % min == 0);
        assert(so >= he);
    }
    lemma_divides_transitive(so, min, 8);
    assert(4 <= header_words(length, min, page_size));
}

/// Validate a configuration; `true` exactly on the configurations an arena
/// accepts.
pub fn checks(start: usize, length: usize, min: usize, page_size: usize) -> (r: bool)
    ensures
        r == valid_config(start as int, length as int, min as int, page_size as int),
{
    if !(start > 0) {
        return false;
    }
    if !(length <= usize::MAX - start) {
        return false;
    }
    if !(min >= 8) {
        return false;
    }
    if !(page_size <= 0x8000_0000) {
        return false;
    }
    if !(min <= page_size) {
        return false;
    }
    let min_rounded = round_up_to_power2(min as u32);
    proof {
        lemma_is_pow2_iff_round_trip(min as nat);
    }
    if min_rounded != min as u32 {
        return false;
    }
    let page_rounded = round_up_to_power2(page_size as u32);
    proof {
        lemma_is_pow2_iff_round_trip(page_size as nat);
    }
    if page_rounded != page_size as u32 {
        return false;
    }
    if !(page_size < length) {
        return false;
    }
    if !(length % page_size == 0) {
        return false;
    }
    if !(page_size % min == 0) {
        return false;
    }
    // The header, rounded up to the surplus, must fit strictly inside the
    // first page.
    let pc: usize = length / page_size;
    let lvl_min = round_up_log2(min as u32);
    let lvl_page = round_up_log2(page_size as u32);
    proof {
        lemma_clog2_mono(min as nat, page_size as nat);
    }
    let lvls: usize = lvl_page - lvl_min + 1;
    proof {
        lemma_pow2_clog2_ge(min as nat);
        lemma_pow2_clog2_ge(page_size as nat);
        assert(page_size % 8 == 0) by {
            lemma_is_pow2_iff_round_trip(page_size as nat);
            lemma2_to64();
            lemma_clog2_pow2(3);
            lemma_clog2_mono(8, page_size as nat);
            let lp = clog2(page_size as nat);
            lemma_pow2_adds(3, (lp - 3) as nat);
            lemma_mod_multiples_basic(pow2((lp - 3) as nat) as int, 8);
            lemma_mul_is_commutative(8, pow2((lp - 3) as nat) as int);
        }
    }
    proof {
        lemma_clog2_pow2(31);
        lemma2_to64();
        lemma_clog2_mono(page_size as nat, pow2(31));
        assert(lvls <= 31);
        vstd::arithmetic::div_mod::lemma_div_is_ordered_by_denominator(length as int, 8, page_size as int);
        assert(pc <= length / 8);
    }
    let hdr_words: usize = 1 + lvls + pc;
    if hdr_words > page_size / 8 {
        proof {
            lemma_fundamental_div_mod(page_size as int, 8);
            assert(8 * hdr_words > page_size);
            assert(surplus_offset(length as int, min as int, page_size as int) >= 8 * hdr_words);
        }
        return false;
    }
    proof {
        lemma_fundamental_div_mod(page_size as int, 8);
        assert(8 * hdr_words <= page_size);
    }
    let hdr_end: usize = 8 * hdr_words;
    let rem: usize = hdr_end % min;
    let surplus: usize = if rem == 0 {
        hdr_end
    } else {
        hdr_end + (min - rem)
    };
    assert(surplus == surplus_offset(length as int, min as int, page_size as int));
    surplus < page_size
}

/// `pow2(clog2(n))` dominates `n` (the rounding never rounds down).
pub proof fn lemma_pow2_clog2_ge(n: nat)
    ensures
        n <= pow2(clog2(n)),
{
    if n >= 1 {
        crate::bits::lemma_clog2_bounds(n);
    } else {
        lemma_pow2_pos(clog2(n));
    }
}

} // verus!
