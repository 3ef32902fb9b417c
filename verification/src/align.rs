//! Alignment arithmetic on addresses and sizes.

use vstd::arithmetic::div_mod::*;
use vstd::arithmetic::mul::*;
use vstd::arithmetic::power::*;
use vstd::arithmetic::power2::*;
use vstd::bits::*;
use vstd::prelude::*;

verus! {

/// `n` is a positive power of two.
pub open spec fn is_power_of_two(n: usize) -> bool {
    is_pow2(n as int)
}

/// `x` is a multiple of `align`.
pub open spec fn is_aligned(x: int, align: int) -> bool {
    x % align == 0
}

/// The distance from `x` up to the next multiple of `align`.
pub open spec fn padding_for(x: int, align: int) -> int {
    (align - x % align) % align
}

/// The least multiple of `align` that is not below `x`.
pub open spec fn round_up(x: int, align: int) -> int {
    x + padding_for(x, align)
}

/// The greatest multiple of `align` that is not above `x`.
pub open spec fn round_down(x: int, align: int) -> int {
    x - x % align
}

/// A power of two is a number with exactly one bit set.
pub proof fn lemma_power_of_two_bits(n: usize)
    ensures
        is_power_of_two(n) <==> (n > 0 && n & ((n - 1) as usize) == 0),
    decreases n,
{
    reveal(is_pow2);
    if n == 1 {
        assert(1usize & ((1usize - 1) as usize) == 0) by (bit_vector);
    } else if n > 1 {
        let h: usize = n / 2;
        lemma_power_of_two_bits(h);
        assert(n > 1 && n & ((n - 1) as usize) == 0 ==> n % 2 == 0 && (n / 2) > 0 && (n / 2) & (((n
            / 2) - 1) as usize) == 0) by (bit_vector);
        assert(n > 1 && n % 2 == 0 && (n / 2) & (((n / 2) - 1) as usize) == 0 ==> n & ((n
            - 1) as usize) == 0) by (bit_vector);
    }
}

/// The exponent of a power of two that fits in a machine word.
pub proof fn lemma_power_of_two_exponent(n: usize) -> (k: nat)
    requires
        is_power_of_two(n),
    ensures
        n == pow2(k),
        k < usize::BITS,
        n > 0,
{
    is_pow2_equiv(n as int);
    let k = choose|i: nat| pow(2, i) == n as int;
    lemma_pow2(k);
    lemma_pow2_pos(k);
    if k >= usize::BITS {
        lemma2_to64();
        if k > usize::BITS {
            lemma_pow2_strictly_increases(usize::BITS as nat, k);
        }
    }
    k
}

/// Masking with `align - 1` is the remainder by `align`, and masking with its
/// complement rounds down.
pub proof fn lemma_mask_is_mod(x: usize, align: usize)
    requires
        is_power_of_two(align),
    ensures
        x & ((align - 1) as usize) == x % align,
        x & !((align - 1) as usize) == x - x % align,
{
    let k = lemma_power_of_two_exponent(align);
    lemma_usize_low_bits_mask_is_mod(x, k);
    assert(low_bits_mask(k) == align - 1);
    let m: usize = (align - 1) as usize;
    assert(x & !m == x - (x & m)) by (bit_vector);
}

/// Of two powers of two the smaller divides the larger.
pub proof fn lemma_power_of_two_divides(small: usize, large: usize) -> (c: int)
    requires
        is_power_of_two(small),
        is_power_of_two(large),
        small <= large,
    ensures
        is_aligned(large as int, small as int),
        c > 0,
        large == c * small,
        small > 0,
{
    let ks = lemma_power_of_two_exponent(small);
    let kl = lemma_power_of_two_exponent(large);
    if kl < ks {
        lemma_pow2_strictly_increases(kl, ks);
    }
    let d: nat = (kl - ks) as nat;
    lemma_pow2_adds(d, ks);
    lemma_pow2_pos(d);
    let c: int = pow2(d) as int;
    assert(large == c * small);
    lemma_mod_multiples_basic(c, small as int);
    c
}

/// What is aligned to a power of two is aligned to every smaller one.
pub proof fn lemma_aligned_to_smaller(x: int, small: usize, large: usize)
    requires
        is_power_of_two(small),
        is_power_of_two(large),
        small <= large,
        is_aligned(x, large as int),
    ensures
        is_aligned(x, small as int),
{
    let c = lemma_power_of_two_divides(small, large);
    let q = x / (large as int);
    lemma_fundamental_div_mod(x, large as int);
    assert(x == (large as int) * q);
    lemma_mul_is_commutative(c, small as int);
    lemma_mul_is_associative(small as int, c, q);
    lemma_mul_is_commutative(small as int, c * q);
    assert(x == (c * q) * small);
    lemma_mod_multiples_basic(c * q, small as int);
}

/// `round_up` gives the multiple of `align` that lies in `[x, x + align)`.
pub proof fn lemma_round_up(x: int, align: int)
    requires
        x >= 0,
        align > 0,
    ensures
        is_aligned(round_up(x, align), align),
        x <= round_up(x, align) < x + align,
        0 <= padding_for(x, align) < align,
        is_aligned(x, align) <==> padding_for(x, align) == 0,
        x % align != 0 ==> padding_for(x, align) == align - x % align,
{
    let r = x % align;
    let q = x / align;
    lemma_fundamental_div_mod(x, align);
    assert(0 <= r < align);
    if r == 0 {
        assert(align % align == 0) by (nonlinear_arith)
            requires
                align > 0,
        ;
    } else {
        assert((align - r) % align == align - r) by (nonlinear_arith)
            requires
                0 < r < align,
        ;
        assert(x + align - r == (q + 1) * align) by (nonlinear_arith)
            requires
                x == align * q + r,
        ;
        lemma_mod_multiples_basic(q + 1, align);
    }
}

/// `round_down` gives the multiple of `align` that lies in `(x - align, x]`.
pub proof fn lemma_round_down(x: int, align: int)
    requires
        x >= 0,
        align > 0,
    ensures
        is_aligned(round_down(x, align), align),
        x - align < round_down(x, align) <= x,
        round_down(x, align) >= 0,
{
    let q = x / align;
    lemma_fundamental_div_mod(x, align);
    assert(x - x % align == q * align) by (nonlinear_arith)
        requires
            x == align * q + x % align,
    ;
    lemma_mod_multiples_basic(q, align);
    assert(q >= 0) by (nonlinear_arith)
        requires
            x >= 0,
            align > 0,
            q == x / align,
    ;
    assert(q * align >= 0) by (nonlinear_arith)
        requires
            q >= 0,
            align > 0,
    ;
}

/// The sum of two multiples of `align` is one.
pub proof fn lemma_aligned_sum(x: int, y: int, align: int)
    requires
        align > 0,
        is_aligned(x, align),
        is_aligned(y, align),
    ensures
        is_aligned(x + y, align),
        is_aligned(x - y, align),
{
    lemma_fundamental_div_mod(x, align);
    lemma_fundamental_div_mod(y, align);
    let qx = x / align;
    let qy = y / align;
    assert(x + y == (qx + qy) * align) by (nonlinear_arith)
        requires
            x == align * qx,
            y == align * qy,
    ;
    assert(x - y == (qx - qy) * align) by (nonlinear_arith)
        requires
            x == align * qx,
            y == align * qy,
    ;
    lemma_mod_multiples_basic(qx + qy, align);
    lemma_mod_multiples_basic(qx - qy, align);
}

/// Two multiples of `align` that are less than `align` apart are the same.
pub proof fn lemma_aligned_close(x: int, y: int, align: int)
    requires
        align > 0,
        is_aligned(x, align),
        is_aligned(y, align),
        -align < x - y < align,
    ensures
        x == y,
{
    lemma_aligned_sum(x, y, align);
    lemma_fundamental_div_mod(x - y, align);
    let q = (x - y) / align;
    assert(q == 0 && align * q == 0) by (nonlinear_arith)
        requires
            x - y == align * q,
            -align < x - y < align,
            align > 0,
    ;
}

/// Tells whether `n` is a positive power of two.
pub fn power_of_two(n: usize) -> (r: bool)
    ensures
        r == is_power_of_two(n),
{
    proof {
        lemma_power_of_two_bits(n);
    }
    n != 0 && n & (n - 1) == 0
}

/// The number of bytes from `addr` up to the next multiple of `align`.
pub fn align_offset(addr: usize, align: usize) -> (pad: usize)
    requires
        is_power_of_two(align),
    ensures
        pad == padding_for(addr as int, align as int),
        pad < align,
        is_aligned(addr + pad, align as int),
{
    proof {
        lemma_power_of_two_bits(align);
        lemma_mask_is_mod(addr, align);
        lemma_round_up(addr as int, align as int);
    }
    let rem: usize = addr & (align - 1);
    if rem == 0 {
        0
    } else {
        align - rem
    }
}

/// Rounds `x` up to the nearest multiple of `align`.
pub fn align_up(x: usize, align: usize) -> (r: usize)
    requires
        is_power_of_two(align),
        x + align - 1 <= usize::MAX,
    ensures
        r == round_up(x as int, align as int),
        is_aligned(r as int, align as int),
        x <= r < x + align,
{
    proof {
        lemma_power_of_two_bits(align);
    }
    let mask: usize = align - 1;
    let bumped: usize = x + mask;
    proof {
        lemma_mask_is_mod(bumped, align);
        lemma_round_up(x as int, align as int);
        lemma_round_down(bumped as int, align as int);
        // both are multiples of `align` in `[x, x + align)`
        lemma_aligned_close(
            round_up(x as int, align as int),
            round_down(bumped as int, align as int),
            align as int,
        );
    }
    bumped & !mask
}

/// Rounds `x` down to the nearest multiple of `align`.
pub fn align_down(x: usize, align: usize) -> (r: usize)
    requires
        is_power_of_two(align),
    ensures
        r == round_down(x as int, align as int),
        is_aligned(r as int, align as int),
        r <= x < r + align,
{
    proof {
        lemma_power_of_two_bits(align);
        lemma_mask_is_mod(x, align);
        lemma_round_down(x as int, align as int);
    }
    x & !(align - 1)
}

/// Rounds `x` up to the nearest multiple of `align`, or gives `None` where
/// that multiple does not fit in a machine word.
pub fn checked_align_up(x: usize, align: usize) -> (r: Option<usize>)
    requires
        is_power_of_two(align),
    ensures
        match r {
            Some(v) => v == round_up(x as int, align as int),
            None => round_up(x as int, align as int) > usize::MAX,
        },
{
    let pad: usize = align_offset(x, align);
    x.checked_add(pad)
}

} // verus!
