//! The partition model: how a flat buffer divides into equal, disjoint
//! sections, and the address mask that keeps a walk inside one section.
//!
//! The mask policy: `mask + 1` is the largest power of two that is at most
//! `num_bytes_per_section`. For a power-of-two section size the mask covers
//! the whole section; otherwise it covers only the lower half of the next
//! power of two. A reduced addressable sub-range in the second case is the
//! intended access-range policy, not an error.

use vstd::arithmetic::power2::{lemma2_to64, lemma_pow2_adds, lemma_pow2_pos, pow2};
use vstd::prelude::*;

verus! {

/// The largest power of two that is at most `n` (and `1` when `n == 0`).
pub open spec fn floor_pow2(n: nat) -> nat
    decreases n,
{
    if n < 2 {
        1
    } else {
        2 * floor_pow2(n / 2)
    }
}

/// The address mask derived from a section size of `n` bytes.
pub open spec fn address_mask(n: nat) -> nat {
    (floor_pow2(n) - 1) as nat
}

/// A valid address mask: an all-ones value, one less than a power of two.
pub open spec fn is_address_mask(mask: nat) -> bool {
    exists|e: nat| #[trigger] pow2(e) == mask + 1
}

/// `floor_pow2` is a power of two; the returned value is its exponent.
pub proof fn lemma_floor_pow2_exp(n: nat) -> (e: nat)
    ensures
        pow2(e) == floor_pow2(n),
    decreases n,
{
    if n < 2 {
        lemma2_to64();
        0
    } else {
        let e0 = lemma_floor_pow2_exp(n / 2);
        lemma_pow2_adds(e0, 1);
        lemma2_to64();
        e0 + 1
    }
}

/// The mask policy's invariant: `address_mask(n) + 1` is a power of two, it
/// does not exceed the section size, and doubling it would.
pub proof fn lemma_address_mask(n: nat) -> (e: nat)
    requires
        1 <= n,
    ensures
        pow2(e) == address_mask(n) + 1,
        address_mask(n) + 1 <= n,
        n < 2 * (address_mask(n) + 1),
    decreases n,
{
    lemma_floor_pow2_bounds(n);
    let e = lemma_floor_pow2_exp(n);
    lemma_pow2_pos(e);
    e
}

/// `floor_pow2(n)` lies in `(n/2, n]` for positive `n`.
pub proof fn lemma_floor_pow2_bounds(n: nat)
    requires
        1 <= n,
    ensures
        1 <= floor_pow2(n) <= n,
        n < 2 * floor_pow2(n),
    decreases n,
{
    if n >= 2 {
        lemma_floor_pow2_bounds(n / 2);
    }
}

/// For a power-of-two section size the mask covers the entire section.
pub proof fn lemma_address_mask_of_pow2(e: nat)
    ensures
        address_mask(pow2(e)) == pow2(e) - 1,
{
    lemma_floor_pow2_of_pow2(e);
}

proof fn lemma_floor_pow2_of_pow2(e: nat)
    ensures
        floor_pow2(pow2(e)) == pow2(e),
    decreases e,
{
    if e == 0 {
        lemma2_to64();
    } else {
        lemma_floor_pow2_of_pow2((e - 1) as nat);
        lemma_pow2_adds((e - 1) as nat, 1);
        lemma2_to64();
        lemma_pow2_pos((e - 1) as nat);
        assert(pow2(e) / 2 == pow2((e - 1) as nat));
    }
}

/// Gives a bitmask that restricts an offset to at most `n`.
///
/// The masked range is `0` to `m` for some `m <= n`: for a power-of-two `n`
/// the whole range is used, otherwise only the lower half of the next power
/// of two.
pub fn num_to_bitmask(n: usize) -> (mask: usize)
    requires
        1 <= n,
    ensures
        mask == address_mask(n as nat),
        mask + 1 == floor_pow2(n as nat),
        is_address_mask(mask as nat),
{
    let mut p: usize = 1;
    proof {
        lemma_floor_pow2_bounds(n as nat);
    }
    while p <= n / 2
        invariant
            1 <= p <= n,
            floor_pow2(n as nat) == p * floor_pow2((n / p) as nat),
        decreases n - p,
    {
        proof {
            lemma_floor_pow2_div_step(n as nat, p as nat);
        }
        p = p * 2;
    }
    proof {
        assert(n < 2 * p) by {
            vstd::arithmetic::div_mod::lemma_fundamental_div_mod(n as int, 2);
        }
        assert(n / p == 1) by {
            vstd::arithmetic::div_mod::lemma_fundamental_div_mod_converse(
                n as int,
                p as int,
                1,
                n - p,
            );
        }
        assert(floor_pow2((n / p) as nat) == 1);
        assert(floor_pow2(n as nat) == p * 1);
        let e = lemma_floor_pow2_exp(n as nat);
    }
    p - 1
}

/// One doubling step of the mask loop: splitting a factor of two off the
/// divisor commutes with `floor_pow2`.
proof fn lemma_floor_pow2_div_step(n: nat, p: nat)
    requires
        1 <= p,
        p <= n / 2,
    ensures
        p * floor_pow2((n / p) as nat) == (2 * p) * floor_pow2((n / (2 * p)) as nat),
{
    assert(2 <= n / p) by {
        vstd::arithmetic::div_mod::lemma_div_multiples_vanish(2, p as int);
        vstd::arithmetic::div_mod::lemma_div_is_ordered((2 * p) as int, n as int, p as int);
    }
    assert((n / p) / 2 == n / (2 * p)) by {
        vstd::arithmetic::div_mod::lemma_div_denominator(n as int, p as int, 2);
        vstd::arithmetic::mul::lemma_mul_is_commutative(p as int, 2);
    }
    assert(floor_pow2((n / p) as nat) == 2 * floor_pow2((n / (2 * p)) as nat));
    assert(p * (2 * floor_pow2((n / (2 * p)) as nat)) == (2 * p) * floor_pow2(
        (n / (2 * p)) as nat,
    )) by {
        vstd::arithmetic::mul::lemma_mul_is_associative(
            p as int,
            2,
            floor_pow2((n / (2 * p)) as nat) as int,
        );
        vstd::arithmetic::mul::lemma_mul_is_commutative(p as int, 2);
    }
}

} // verus!
