//! The memory-walk kernel: the per-request unit of work. It performs a
//! fixed number of rounds of four spaced-out byte reads over one section
//! slice, accumulates the bytes into a wrapped 8-bit checksum, and advances
//! the read offset multiplicatively so that the access pattern defeats
//! linear-stride prefetch detection.
//!
//! The canonical advancement formula: after each round the offset becomes
//! `(offset * 791) mod (mask + 1)`, computed in machine arithmetic as a
//! wrapping multiplication followed by `& mask`; the two agree because
//! `mask + 1` is a power of two dividing the machine word range. The kernel
//! is a pure function of `(slice contents, start, mask, iterations)`: its
//! contract pins the result to the spec function [`walk`], which is the
//! kernel-determinism guarantee.

use vstd::arithmetic::div_mod::{
    lemma_add_mod_noop, lemma_add_mod_noop_right, lemma_mod_mod, lemma_mod_multiples_vanish,
    lemma_small_mod,
};
use vstd::arithmetic::power2::{
    lemma_pow2_adds, lemma_pow2_pos, lemma_pow2_strictly_increases, pow2,
};
use crate::partition::is_address_mask;
use vstd::bits::{lemma_usize_low_bits_mask_is_mod, low_bits_mask};
use vstd::layout::unsigned_int_max_values;
use vstd::prelude::*;
use vstd::slice::slice_index_get;

verus! {

/// Spacing between the four reads of one round: larger than a typical
/// cache line, so that the reads are unlikely to share one.
pub const LOAD_SPACING: usize = 0x200;

/// Index of read `k` of a round that starts at `offset`.
pub open spec fn probe_index(offset: int, k: int, mask: int) -> int {
    (offset + k * LOAD_SPACING) % (mask + 1)
}

/// The offset of the next round: multiplicative advancement, confined to
/// `[0, mask]`.
pub open spec fn advance_offset(offset: int, mask: int) -> int {
    (offset * 791) % (mask + 1)
}

/// Sum of the four bytes one round reads.
pub open spec fn round_sum(sec: Seq<u8>, offset: int, mask: int) -> int {
    sec[probe_index(offset, 0, mask)] + sec[probe_index(offset, 1, mask)] + sec[
        probe_index(offset, 2, mask)
    ] + sec[probe_index(offset, 3, mask)]
}

/// Wrapped (modulo 256) checksum of `iters` rounds starting at a confined
/// offset.
pub open spec fn walk_from(sec: Seq<u8>, offset: int, mask: int, iters: nat) -> int
    decreases iters,
{
    if iters == 0 {
        0
    } else {
        (round_sum(sec, offset, mask) + walk_from(
            sec,
            advance_offset(offset, mask),
            mask,
            (iters - 1) as nat,
        )) % 256
    }
}

/// The kernel's checksum for a walk over `sec` beginning at `start`: the
/// starting offset is confined to `[0, mask]` first, as every later offset
/// is.
pub open spec fn walk(sec: Seq<u8>, start: int, mask: int, iters: nat) -> int {
    walk_from(sec, start % (mask + 1), mask, iters)
}

/// The checksum is an 8-bit value.
pub proof fn lemma_walk_from_bounds(sec: Seq<u8>, offset: int, mask: int, iters: nat)
    ensures
        0 <= walk_from(sec, offset, mask, iters) < 256,
{
    if iters == 0 {
    }
}

/// The walk checksum is an 8-bit value.
pub proof fn lemma_walk_bounds(sec: Seq<u8>, start: int, mask: int, iters: nat)
    ensures
        0 <= walk(sec, start, mask, iters) < 256,
{
    lemma_walk_from_bounds(sec, start % (mask + 1), mask, iters);
}

/// A walk of zero rounds reads nothing: its checksum is zero, whatever the
/// slice, start and mask.
pub proof fn lemma_walk_zero_iterations(sec: Seq<u8>, start: int, mask: int)
    ensures
        walk(sec, start, mask, 0) == 0,
{
}

/// The exponent of a valid address mask is below the machine word width
/// whenever the mask itself is representable.
proof fn lemma_mask_exponent_bound(mask: usize, e: nat)
    requires
        pow2(e) == mask as int + 1,
        mask < usize::MAX,
    ensures
        e < usize::BITS,
{
    unsigned_int_max_values();
    let bits = usize::BITS as nat;
    if e >= bits {
        if e > bits {
            lemma_pow2_strictly_increases(bits, e);
        }
    }
}

/// Confining a machine-wrapped value with an all-ones mask equals reducing
/// the exact value modulo the mask's range, because that range divides the
/// machine word range.
proof fn lemma_wrap_then_mask(x: int, w: usize, mask: usize, e: nat)
    requires
        0 <= x,
        w == x % (usize::MAX as int + 1),
        pow2(e) == mask as int + 1,
        mask < usize::MAX,
    ensures
        (w & mask) == x % (mask as int + 1),
{
    lemma_mask_exponent_bound(mask, e);
    unsigned_int_max_values();
    let bits = usize::BITS as nat;
    assert(mask as nat == low_bits_mask(e));
    lemma_usize_low_bits_mask_is_mod(w, e);
    assert(w & mask == w as int % (mask as int + 1));
    lemma_pow2_adds(e, (bits - e) as nat);
    lemma_pow2_pos((bits - e) as nat);
    assert((mask as int + 1) * pow2((bits - e) as nat) == usize::MAX as int + 1);
    lemma_mod_mod(x, mask as int + 1, pow2((bits - e) as nat) as int);
}

/// A machine wrapping addition is addition modulo the word range.
proof fn lemma_wrapping_add_is_mod(a: usize, b: usize)
    ensures
        vstd::wrapping::usize_specs::wrapping_add(a, b) == (a + b) % (usize::MAX as int + 1),
{
    let r = usize::MAX as int + 1;
    if a + b > usize::MAX {
        lemma_mod_multiples_vanish(1, a + b - r, r);
        lemma_small_mod((a + b - r) as nat, r as nat);
    } else {
        lemma_small_mod((a + b) as nat, r as nat);
    }
}

/// A wrapping byte addition is addition modulo 256.
proof fn lemma_wrapping_add_u8_is_mod(a: u8, b: u8)
    ensures
        vstd::wrapping::u8_specs::wrapping_add(a, b) == (a + b) % 256,
{
    if a + b > u8::MAX {
        lemma_mod_multiples_vanish(1, a + b - 256, 256);
        lemma_small_mod((a + b - 256) as nat, 256);
    } else {
        lemma_small_mod((a + b) as nat, 256);
    }
}

/// Folding one more summand into an already wrapped sum.
proof fn lemma_fold_mod_add(s: int, a: int, b: int)
    requires
        0 <= b < 256,
    ensures
        ((s + a) % 256 + b) % 256 == (s + a + b) % 256,
{
    lemma_small_mod(b as nat, 256);
    lemma_add_mod_noop(s + a, b, 256);
}

/// One read of a round: the byte at `(offset + k * LOAD_SPACING) & mask`,
/// the addition taken at machine width.
fn probe_read(sec: &[u8], offset: usize, k: usize, mask: usize, Ghost(e): Ghost<nat>) -> (v: u8)
    requires
        k <= 3,
        pow2(e) == mask as int + 1,
        mask < sec@.len(),
    ensures
        v == sec@[probe_index(offset as int, k as int, mask as int)],
{
    let n = sec.len();
    let w = offset.wrapping_add(k * LOAD_SPACING);
    proof {
        assert(mask < n);
        lemma_wrapping_add_is_mod(offset, (k * LOAD_SPACING) as usize);
        lemma_wrap_then_mask(offset + k * LOAD_SPACING, w, mask, e);
    }
    *slice_index_get(sec, w & mask)
}

/// The next round's offset: wrapping multiplication, then confinement.
fn advance(offset: usize, mask: usize, Ghost(e): Ghost<nat>) -> (next: usize)
    requires
        pow2(e) == mask as int + 1,
        mask < usize::MAX,
    ensures
        next == advance_offset(offset as int, mask as int),
        next <= mask,
{
    let w = offset.wrapping_mul(791);
    proof {
        assert(w == (offset * 791) % (usize::MAX as int + 1));
        lemma_wrap_then_mask(offset as int * 791, w, mask, e);
    }
    w & mask
}

/// Performs the walk: `num_iterations` rounds of four reads each, summed
/// with wraparound (overflow is expected and intentional), the offset
/// advanced multiplicatively and confined to `[0, mask]` after every round.
///
/// The result equals [`walk`] of the slice contents, start, mask and
/// iteration count alone: identical inputs always give an identical
/// checksum, under any strategy and on any thread.
pub fn handle_request(sec: &[u8], start: usize, mask: usize, num_iterations: usize) -> (sum: u8)
    requires
        is_address_mask(mask as nat),
        mask < sec@.len(),
    ensures
        sum as int == walk(sec@, start as int, mask as int, num_iterations as nat),
{
    let ghost e = choose|e: nat| #[trigger] pow2(e) == mask as nat + 1;
    let ghost m = mask as int + 1;
    let ghost total = num_iterations as nat;
    let n = sec.len();
    proof {
        assert(mask < n);
        lemma_small_mod(start as nat, (usize::MAX as int + 1) as nat);
        lemma_wrap_then_mask(start as int, start, mask, e);
        lemma_walk_from_bounds(sec@, start as int % m, mask as int, total);
        lemma_small_mod(walk_from(sec@, start as int % m, mask as int, total) as nat, 256);
    }
    let mut offset: usize = start & mask;
    let mut sum: u8 = 0;
    let mut i: usize = 0;

    while i < num_iterations
        invariant
            i <= num_iterations,
            pow2(e) == mask as int + 1,
            m == mask as int + 1,
            total == num_iterations as nat,
            mask < sec@.len(),
            mask < usize::MAX,
            (sum + walk_from(sec@, offset as int, mask as int, (num_iterations - i) as nat)) % 256
                == walk(sec@, start as int, mask as int, total),
        decreases num_iterations - i,
    {
        let ghost rem = (num_iterations - i) as nat;
        let ghost off0 = offset as int;
        let ghost sum0 = sum as int;
        let ghost mi = mask as int;

        let v1 = probe_read(sec, offset, 0, mask, Ghost(e));
        let v2 = probe_read(sec, offset, 1, mask, Ghost(e));
        let v3 = probe_read(sec, offset, 2, mask, Ghost(e));
        let v4 = probe_read(sec, offset, 3, mask, Ghost(e));

        let s1 = sum.wrapping_add(v1);
        let s2 = s1.wrapping_add(v2);
        let s3 = s2.wrapping_add(v3);
        sum = s3.wrapping_add(v4);
        proof {
            lemma_wrapping_add_u8_is_mod(
                s3,
                v4,
            );
            lemma_wrapping_add_u8_is_mod(s2, v3);
            lemma_wrapping_add_u8_is_mod(s1, v2);
            lemma_wrapping_add_u8_is_mod((sum0 as u8), v1);
            lemma_fold_mod_add(sum0, v1 as int, v2 as int);
            lemma_fold_mod_add(sum0, v1 + v2, v3 as int);
            lemma_fold_mod_add(sum0, v1 + v2 + v3, v4 as int);
            assert(sum as int == (sum0 + round_sum(sec@, off0, mi)) % 256);
        }

        offset = advance(offset, mask, Ghost(e));

        i = i + 1;
        proof {
            let r = round_sum(sec@, off0, mi);
            let w1 = walk_from(sec@, offset as int, mi, (rem - 1) as nat);
            lemma_walk_from_bounds(sec@, offset as int, mi, (rem - 1) as nat);
            assert(walk_from(sec@, off0, mi, rem) == (r + w1) % 256);
            lemma_small_mod(w1 as nat, 256);
            lemma_add_mod_noop(sum0 + r, w1, 256);
            lemma_add_mod_noop_right(sum0, r + w1, 256);
            assert((sum + w1) % 256 == (sum0 + (r + w1) % 256) % 256);
        }
    }
    proof {
        lemma_small_mod(sum as nat, 256);
    }
    sum
}

} // verus!
