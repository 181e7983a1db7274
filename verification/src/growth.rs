//! Doubling block chains.
//!
//! Both the arena and the segmented list organise their storage as a chain
//! of blocks whose capacities double: block `i` holds `base * 2^i` units,
//! where `base` is the capacity of the first block.  This module defines
//! that geometry once — capacities, cumulative start offsets, which block a
//! given position falls in, and the smallest block that can hold a request —
//! together with the lemmas the two components need.

use vstd::prelude::*;
use vstd::arithmetic::power2::{
    pow2, lemma_pow2_pos, lemma_pow2_unfold, lemma_pow2_strictly_increases, lemma2_to64,
};
use vstd::arithmetic::mul::lemma_mul_inequality;

verus! {

/// Capacity of block `i` in a doubling chain that starts at `base`:
/// `base * 2^i` units.
pub open spec fn chunk_cap(base: int, i: int) -> int {
    base * pow2(i as nat)
}

/// Units held by all blocks before block `i`: `base * (2^i - 1)`.
/// This is also the position at which block `i` starts.
pub open spec fn chunk_start(base: int, i: int) -> int {
    base * (pow2(i as nat) - 1)
}

/// The capacities of blocks `0 .. k`, summed one block at a time.
pub open spec fn chunk_cap_sum(base: int, k: int) -> int
    decreases k,
{
    if k <= 0 {
        0
    } else {
        chunk_cap_sum(base, k - 1) + chunk_cap(base, k - 1)
    }
}

/// The block of a doubling chain that position `pos` falls in: the unique
/// `b` with `chunk_start(base, b) <= pos < chunk_start(base, b + 1)`.
pub open spec fn chunk_of(base: int, pos: int) -> int
    decreases pos,
    when 1 <= base
{
    if pos < base {
        0
    } else {
        1 + chunk_of(base, (pos - base) / 2)
    }
}

/// The smallest block index whose capacity is at least `size`.
pub open spec fn chunk_fitting(base: int, size: int) -> int
    decreases size,
    when 1 <= base
{
    if size <= base {
        0
    } else {
        1 + chunk_fitting(base, (size + 1) / 2)
    }
}

/// Block `i + 1` starts one capacity after block `i` and is twice as large.
pub proof fn lemma_chunk_step(base: int, i: int)
    requires
        0 <= i,
    ensures
        chunk_start(base, i + 1) == chunk_start(base, i) + chunk_cap(base, i),
        chunk_cap(base, i + 1) == 2 * chunk_cap(base, i),
{
    lemma_pow2_unfold((i + 1) as nat);
    let p = pow2(i as nat) as int;
    assert(base * (2 * p - 1) == base * (p - 1) + base * p) by (nonlinear_arith);
    assert(base * (2 * p) == 2 * (base * p)) by (nonlinear_arith);
}

/// The cumulative capacity of blocks `0 .. k` equals `chunk_start(base, k)`,
/// that is `base * (2^k - 1)`.
pub proof fn lemma_chunk_cap_sum(base: int, k: int)
    requires
        0 <= k,
    ensures
        chunk_cap_sum(base, k) == chunk_start(base, k),
    decreases k,
{
    if k == 0 {
        lemma2_to64();
        assert(base * (pow2(0) - 1) == 0) by (nonlinear_arith)
            requires pow2(0) == 1;
    } else {
        lemma_chunk_cap_sum(base, k - 1);
        lemma_chunk_step(base, k - 1);
    }
}

/// Start positions grow with the block index; strictly so for a positive base.
pub proof fn lemma_chunk_start_monotonic(base: int, i: int, j: int)
    requires
        1 <= base,
        0 <= i <= j,
    ensures
        chunk_start(base, i) <= chunk_start(base, j),
        i < j ==> chunk_start(base, i) + chunk_cap(base, i) <= chunk_start(base, j),
        0 <= chunk_start(base, i),
        1 <= chunk_cap(base, i),
{
    lemma_pow2_pos(i as nat);
    lemma_pow2_pos(j as nat);
    let pi = pow2(i as nat) as int;
    let pj = pow2(j as nat) as int;
    if i < j {
        if i + 1 < j {
            lemma_pow2_strictly_increases((i + 1) as nat, j as nat);
        }
        lemma_chunk_step(base, i);
        let pi1 = pow2((i + 1) as nat) as int;
        lemma_mul_inequality(pi1 - 1, pj - 1, base);
        assert((pi1 - 1) * base == base * (pi1 - 1)) by (nonlinear_arith);
        assert((pj - 1) * base == base * (pj - 1)) by (nonlinear_arith);
    } else {
        assert(pi == pj);
    }
    lemma_mul_inequality(0, pi - 1, base);
    assert(0 * base == 0) by (nonlinear_arith);
    assert((pi - 1) * base == base * (pi - 1)) by (nonlinear_arith);
    assert(1 * 1 <= base * pi) by (nonlinear_arith)
        requires 1 <= base && 1 <= pi;
}

/// Each block starts one base-width past twice the previous start: the
/// doubling chain seen through its start positions.
pub proof fn lemma_chunk_start_double(base: int, i: int)
    requires
        0 <= i,
    ensures
        chunk_start(base, i + 1) == 2 * chunk_start(base, i) + base,
{
    lemma_pow2_unfold((i + 1) as nat);
    assert(base * (pow2((i + 1) as nat) - 1) == 2 * (base * (pow2(i as nat) - 1)) + base)
        by (nonlinear_arith)
        requires pow2((i + 1) as nat) == 2 * pow2(i as nat);
}

/// Only one block contains a given position.
pub proof fn lemma_chunk_unique(base: int, b1: int, b2: int, pos: int)
    requires
        1 <= base,
        0 <= b1,
        0 <= b2,
        chunk_start(base, b1) <= pos < chunk_start(base, b1 + 1),
        chunk_start(base, b2) <= pos < chunk_start(base, b2 + 1),
    ensures
        b1 == b2,
{
    if b1 < b2 {
        lemma_chunk_start_monotonic(base, b1 + 1, b2);
    }
    if b2 < b1 {
        lemma_chunk_start_monotonic(base, b2 + 1, b1);
    }
}

/// `chunk_of` indeed finds a block containing the position.
pub proof fn lemma_chunk_of_range(base: int, pos: int)
    requires
        1 <= base,
        0 <= pos,
    ensures
        0 <= chunk_of(base, pos),
        chunk_start(base, chunk_of(base, pos)) <= pos,
        pos < chunk_start(base, chunk_of(base, pos) + 1),
    decreases pos,
{
    if pos < base {
        lemma2_to64();
        assert(base * (pow2(0) - 1) == 0) by (nonlinear_arith)
            requires pow2(0) == 1;
        assert(base * (pow2(1) - 1) == base) by (nonlinear_arith)
            requires pow2(1) == 2;
    } else {
        let rest = (pos - base) / 2;
        assert(0 <= rest) by {
            vstd::arithmetic::div_mod::lemma_div_pos_is_pos(pos - base, 2);
        }
        lemma_chunk_of_range(base, rest);
        let b = chunk_of(base, rest);
        vstd::arithmetic::div_mod::lemma_fundamental_div_mod(pos - base, 2);
        // pos - base == 2 * rest + (pos - base) % 2, with the remainder in [0, 2)
        lemma_chunk_start_double(base, b);
        lemma_chunk_start_double(base, b + 1);
        assert(chunk_start(base, b + 1) <= pos);
        assert(pos < chunk_start(base, b + 2));
    }
}

/// `chunk_of` is the unique block containing the position.
pub proof fn lemma_chunk_of_is(base: int, pos: int, b: int)
    requires
        1 <= base,
        0 <= b,
        chunk_start(base, b) <= pos < chunk_start(base, b + 1),
    ensures
        chunk_of(base, pos) == b,
{
    lemma_chunk_start_monotonic(base, 0, b);
    lemma_chunk_of_range(base, pos);
    lemma_chunk_unique(base, chunk_of(base, pos), b, pos);
}

/// Capacities grow with the block index.
pub proof fn lemma_chunk_cap_monotonic(base: int, i: int, j: int)
    requires
        1 <= base,
        0 <= i <= j,
    ensures
        chunk_cap(base, i) <= chunk_cap(base, j),
{
    if i < j {
        lemma_pow2_strictly_increases(i as nat, j as nat);
    }
    let pi = pow2(i as nat) as int;
    let pj = pow2(j as nat) as int;
    lemma_mul_inequality(pi, pj, base);
    assert(pi * base == base * pi) by (nonlinear_arith);
    assert(pj * base == base * pj) by (nonlinear_arith);
}

/// `chunk_fitting` names the smallest block whose capacity covers `size`.
pub proof fn lemma_chunk_fitting(base: int, size: int)
    requires
        1 <= base,
        1 <= size,
    ensures
        0 <= chunk_fitting(base, size),
        size <= chunk_cap(base, chunk_fitting(base, size)),
        chunk_fitting(base, size) > 0 ==> chunk_cap(base, chunk_fitting(base, size) - 1) < size,
        chunk_fitting(base, size) > 0 ==> base < size,
    decreases size,
{
    if size <= base {
        lemma2_to64();
        assert(base * 1 == base) by (nonlinear_arith);
    } else {
        let half = (size + 1) / 2;
        assert(1 <= half && half < size) by {
            vstd::arithmetic::div_mod::lemma_fundamental_div_mod(size + 1, 2);
        }
        lemma_chunk_fitting(base, half);
        let f = chunk_fitting(base, half);
        lemma_chunk_step(base, f);
        vstd::arithmetic::div_mod::lemma_fundamental_div_mod(size + 1, 2);
        // half * 2 - 1 <= size <= half * 2, so:
        // size <= 2 * chunk_cap(base, f) == chunk_cap(base, f + 1)
        assert(size <= 2 * half);
        assert(2 * half - 1 <= size);
        if f > 0 {
            lemma_chunk_step(base, f - 1);
        } else {
            lemma2_to64();
            assert(base * 1 == base) by (nonlinear_arith);
        }
    }
}

} // verus!
