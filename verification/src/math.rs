//! Machine-word arithmetic helpers: power-of-two tests and alignment
//! rounding, shared by the heap allocator and the physical-memory code.

use vstd::prelude::*;
use vstd::arithmetic::div_mod::lemma_div_pos_is_pos;
use vstd::arithmetic::div_mod::lemma_fundamental_div_mod;
use vstd::arithmetic::div_mod::lemma_mod_bound;
use vstd::arithmetic::power2::is_pow2;
use vstd::arithmetic::power2::is_pow2_equiv;
use vstd::arithmetic::power2::lemma_pow2_strictly_increases;
use vstd::arithmetic::power2::pow2;
use vstd::bits::lemma_usize_low_bits_mask_is_mod;
use vstd::bits::low_bits_mask;
use vstd::layout::unsigned_int_max_values;

verus! {

/// A power of two `m` that fits in a word is `pow2(k)` for some exponent
/// `k` strictly below the word width.
pub proof fn lemma_pow2_exponent(m: usize) -> (k: nat)
    requires
        is_pow2(m as int),
    ensures
        m == pow2(k),
        k < usize::BITS,
{
    is_pow2_equiv(m as int);
    let i = choose|i: nat| vstd::arithmetic::power::pow(2, i) == m as int;
    assert(pow2(i) == m);
    unsigned_int_max_values();
    if i >= usize::BITS {
        if i > usize::BITS {
            lemma_pow2_strictly_increases(usize::BITS as nat, i);
        }
        assert(pow2(i) >= pow2(usize::BITS as nat));
        assert(false);
    }
    i
}

/// The bit trick `m & (m - 1) == 0` recognises exactly the powers of two
/// among the non-zero words; `mask` stands for `m - 1`.
pub proof fn lemma_pow2_bit_form(m: usize, mask: usize)
    requires
        m >= 1,
        mask + 1 == m,
    ensures
        is_pow2(m as int) <==> (m & mask) == 0,
    decreases m,
{
    reveal(is_pow2);
    if m == 1 {
        assert(1usize & 0usize == 0) by (bit_vector);
    } else {
        let h = (m / 2) as usize;
        let hmask = (h - 1) as usize;
        lemma_pow2_bit_form(h, hmask);
        lemma_fundamental_div_mod(m as int, 2);
        assert((m & 1) == (m % 2)) by (bit_vector);
        assert(m >= 2 && mask + 1 == m && (m & 1) == 1 ==> (m & mask) != 0) by (bit_vector);
        if m % 2 == 0 {
            assert(h + h == m);
            assert((m >= 2 && mask + 1 == m && hmask + 1 == h && h + h == m) ==> ((m & mask) == 0
                <==> (h & hmask) == 0)) by (bit_vector);
        }
    }
}

/// For a power of two `m`, masking with `mask = m - 1` is reduction modulo
/// `m`.
pub proof fn lemma_pow2_mask_is_mod(x: usize, m: usize, mask: usize)
    requires
        is_pow2(m as int),
        mask + 1 == m,
    ensures
        (x & mask) == x as int % m as int,
{
    let k = lemma_pow2_exponent(m);
    assert(low_bits_mask(k) == mask);
    lemma_usize_low_bits_mask_is_mod(x, k);
}

/// For a power of two `m`, clearing the low `mask = m - 1` bits rounds
/// down to a multiple of `m`.
pub proof fn lemma_pow2_mask_down(x: usize, m: usize, mask: usize)
    requires
        is_pow2(m as int),
        mask + 1 == m,
    ensures
        (x & !mask) == x as int - x as int % m as int,
{
    assert((x & !mask) == x - (x & mask)) by (bit_vector);
    lemma_pow2_mask_is_mod(x, m, mask);
}

/// A smaller power of two divides a larger one.
pub proof fn lemma_pow2_divides(small: usize, big: usize)
    requires
        is_pow2(small as int),
        is_pow2(big as int),
        small <= big,
    ensures
        big as int % small as int == 0,
{
    reveal(is_pow2);
    let k1 = lemma_pow2_exponent(small);
    let k2 = lemma_pow2_exponent(big);
    if k2 < k1 {
        lemma_pow2_strictly_increases(k2, k1);
    }
    vstd::arithmetic::power2::lemma_pow2_adds(k1, (k2 - k1) as nat);
    assert(big as int == pow2((k2 - k1) as nat) as int * small as int) by {
        vstd::arithmetic::mul::lemma_mul_is_commutative(
            small as int,
            pow2((k2 - k1) as nat) as int,
        );
    }
    vstd::arithmetic::div_mod::lemma_mod_multiples_basic(
        pow2((k2 - k1) as nat) as int,
        small as int,
    );
}

/// Divisibility is transitive: a multiple of `a` is a multiple of any
/// divisor `b` of `a`.
pub proof fn lemma_mod_divides_trans(x: int, a: int, b: int)
    requires
        a > 0,
        b > 0,
        x % a == 0,
        a % b == 0,
    ensures
        x % b == 0,
{
    lemma_fundamental_div_mod(x, a);
    lemma_fundamental_div_mod(a, b);
    let q = x / a;
    let p = a / b;
    assert(x == (b * p) * q);
    assert(x == b * (p * q)) by {
        vstd::arithmetic::mul::lemma_mul_is_associative(b, p, q);
    }
    assert((p * q) * b == b * (p * q)) by {
        vstd::arithmetic::mul::lemma_mul_is_commutative(p * q, b);
    }
    vstd::arithmetic::div_mod::lemma_mod_multiples_basic(p * q, b);
}

/// A sum of two multiples of `m` is a multiple of `m`.
pub proof fn lemma_mod_sum_zero(a: int, b: int, m: int)
    requires
        m > 0,
        a % m == 0,
        b % m == 0,
    ensures
        (a + b) % m == 0,
{
    vstd::arithmetic::div_mod::lemma_add_mod_noop(a, b, m);
    vstd::arithmetic::div_mod::lemma_small_mod(0, m as nat);
}

/// What a request rounds up to: zero becomes one full unit, anything else
/// moves to the next multiple of `by` (staying put when already there).
pub open spec fn round_up_spec(roundee: int, by: int) -> int {
    if roundee == 0 {
        by
    } else if roundee % by == 0 {
        roundee
    } else {
        roundee - roundee % by + by
    }
}

/// Round a request up to a multiple of `by` (a power of two); a zero
/// request rounds to one full unit rather than zero.
pub fn round_up(roundee: usize, by: usize) -> (r: usize)
    requires
        is_pow2(by as int),
        roundee <= usize::MAX - by,
    ensures
        r == round_up_spec(roundee as int, by as int),
        r as int % by as int == 0,
        roundee <= r,
        by <= r,
{
    proof {
        reveal(is_pow2);
    }
    let mask = by - 1;
    proof {
        lemma_pow2_bit_form(by, mask);
        lemma_pow2_mask_is_mod(roundee, by, mask);
        lemma_mod_bound(roundee as int, by as int);
        lemma_fundamental_div_mod(roundee as int, by as int);
        vstd::arithmetic::div_mod::lemma_mod_multiples_basic(
            roundee as int / by as int + 1,
            by as int,
        );
        assert(by as int * (roundee as int / by as int + 1) == by as int * (roundee as int
            / by as int) + by as int) by {
            vstd::arithmetic::mul::lemma_mul_is_distributive_add(
                by as int,
                roundee as int / by as int,
                1,
            );
        }
    }
    let mut r = roundee;
    if r == 0 || (r & mask) != 0 {
        r -= r & mask;
        r += by;
    }
    proof {
        let q = roundee as int / by as int;
        lemma_div_pos_is_pos(roundee as int, by as int);
        if roundee == 0 || roundee as int % by as int != 0 {
            assert(roundee as int - roundee as int % by as int == by as int * q);
            assert(r == by as int * q + by as int);
            assert(r == by as int * (q + 1));
            vstd::arithmetic::mul::lemma_mul_increases(q + 1, by as int);
            assert(by as int <= (q + 1) * by as int);
            vstd::arithmetic::mul::lemma_mul_is_commutative(q + 1, by as int);
            assert(by <= r);
        } else {
            if q == 0 {
                assert(roundee as int == by as int * 0 + roundee as int % by as int);
                assert(false);
            }
            vstd::arithmetic::mul::lemma_mul_increases(q, by as int);
            vstd::arithmetic::mul::lemma_mul_is_commutative(q, by as int);
            assert(by <= r);
        }
    }
    r
}

/// True when the given address needs no adjustment for the given
/// power-of-two alignment.
pub fn is_ptr_aligned_by(ptr: usize, alignment: usize) -> (r: bool)
    requires
        is_pow2(alignment as int),
    ensures
        r == (ptr as int % alignment as int == 0),
{
    proof {
        reveal(is_pow2);
        lemma_pow2_mask_is_mod(ptr, alignment, (alignment - 1) as usize);
    }
    (ptr & (alignment - 1)) == 0
}

/// Round an address down to the previous multiple of a power-of-two
/// alignment.
pub fn align_down_by(n: usize, alignment: usize) -> (r: usize)
    requires
        is_pow2(alignment as int),
    ensures
        r == n as int - n as int % alignment as int,
{
    proof {
        reveal(is_pow2);
        lemma_pow2_mask_down(n, alignment, (alignment - 1) as usize);
    }
    n & !(alignment - 1)
}

/// Round an address up to the next multiple of a power-of-two alignment;
/// an already aligned address (zero included) stays put.
pub fn align_up_by(n: usize, alignment: usize) -> (r: usize)
    requires
        is_pow2(alignment as int),
        n <= usize::MAX - alignment,
    ensures
        r == (if n as int % alignment as int == 0 {
            n as int
        } else {
            n as int - n as int % alignment as int + alignment as int
        }),
{
    if is_aligned_by(n, alignment) {
        n
    } else {
        proof {
            reveal(is_pow2);
            lemma_mod_bound(n as int, alignment as int);
            vstd::arithmetic::div_mod::lemma_add_mod_noop(
                n as int,
                alignment as int,
                alignment as int,
            );
            vstd::arithmetic::div_mod::lemma_mod_twice(n as int, alignment as int);
            vstd::arithmetic::div_mod::lemma_mod_self_0(alignment as int);
        }
        align_down_by(n + alignment, alignment)
    }
}

/// True exactly for the non-zero words that are powers of two.
pub fn is_power_of_two(x: usize) -> (r: bool)
    requires
        x >= 1,
    ensures
        r == is_pow2(x as int),
{
    proof {
        lemma_pow2_bit_form(x, (x - 1) as usize);
    }
    x & (x - 1) == 0
}

/// True when the given address is a multiple of the given power-of-two
/// alignment.
pub fn is_aligned_by(ptr: usize, alignment: usize) -> (r: bool)
    requires
        is_pow2(alignment as int),
    ensures
        r == (ptr as int % alignment as int == 0),
{
    proof {
        reveal(is_pow2);
        lemma_pow2_mask_is_mod(ptr, alignment, (alignment - 1) as usize);
    }
    let p = is_power_of_two(alignment);
    assert(p);
    (ptr & (alignment - 1)) == 0
}

} // verus!
