//! Placement of the kernel heap: its fixed size, and the rounding used
//! to place its base just past the kernel image.

use vstd::prelude::*;
use vstd::arithmetic::power2::is_pow2;
use crate::constants::MB;
use crate::math::align_down_by;
use crate::math::is_aligned_by;

verus! {

/// The next multiple of a power-of-two alignment at or after `start`.
pub fn round_next(start: usize, alignment: usize) -> (r: usize)
    requires
        is_pow2(alignment as int),
        start <= usize::MAX - alignment,
    ensures
        r == (if start as int % alignment as int == 0 {
            start as int
        } else {
            start as int - start as int % alignment as int + alignment as int
        }),
        r as int % alignment as int == 0,
{
    proof {
        reveal(is_pow2);
    }
    if is_aligned_by(start, alignment) {
        return start;
    }
    proof {
        crate::math::lemma_pow2_mask_down(start, alignment, (alignment - 1) as usize);
        vstd::arithmetic::div_mod::lemma_mod_bound(start as int, alignment as int);
        vstd::arithmetic::div_mod::lemma_fundamental_div_mod(start as int, alignment as int);
        vstd::arithmetic::div_mod::lemma_mod_multiples_basic(
            start as int / alignment as int + 1,
            alignment as int,
        );
        assert(alignment as int * (start as int / alignment as int + 1) == alignment as int
            * (start as int / alignment as int) + alignment as int) by {
            vstd::arithmetic::mul::lemma_mul_is_distributive_add(
                alignment as int,
                start as int / alignment as int,
                1,
            );
        }
    }
    let r = align_down_by(start, alignment) + alignment;
    assert(r as int == alignment as int * (start as int / alignment as int + 1));
    r
}

/// How many bytes the kernel heap gets.
pub fn get_size() -> (r: usize)
    ensures
        r == 16 * MB,
{
    16 * MB
}

} // verus!
