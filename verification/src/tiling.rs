//! Partition of one image axis into tiles of a fixed length.
//!
//! Tiles advance by their own length from offset 0. Where the axis is not a
//! whole number of tiles long, the last tile is pulled back to end exactly at
//! the end of the axis, overlapping its predecessor: every tile has the full
//! length, and no part of the axis is left uncovered.

use vstd::arithmetic::div_mod::{lemma_div_is_ordered, lemma_fundamental_div_mod, lemma_mod_bound};
use vstd::prelude::*;

verus! {

/// The axes that can be tiled: an empty one, or one at least one tile long,
/// where a tile has a length.
pub open spec fn tileable(step: nat, end: nat) -> bool {
    end == 0 || 0 < step <= end
}

/// How many tiles of length `step` are laid over an axis of length `end`:
/// one for each multiple of `step` that leaves more than `step` remaining,
/// and a final one that ends at `end`.
pub open spec fn tile_count(step: nat, end: nat) -> nat {
    if end == 0 {
        0
    } else {
        (end - 1) as nat / step + 1
    }
}

/// Offset of tile `i`: `i * step` for every tile but the last, which starts
/// at `end - step`.
pub open spec fn tile_offset(step: nat, end: nat, i: int) -> int {
    if i + 1 < tile_count(step, end) {
        i * step
    } else {
        end - step
    }
}

/// Every tile but the last ends before the last one does.
proof fn lemma_inner_tile(step: nat, end: nat, i: int)
    requires
        tileable(step, end),
        0 <= i,
        i + 1 < tile_count(step, end),
    ensures
        0 <= i * step,
        i * step + step < end,
{
    let last = (end - 1) / (step as int);
    lemma_fundamental_div_mod(end - 1, step as int);
    lemma_mod_bound(end - 1, step as int);
    assert(0 <= i * step && (i + 1) * step <= last * step && (i + 1) * step == i * step + step
        && step * last == last * step) by (nonlinear_arith)
        requires
            0 <= i,
            i + 1 <= last,
            0 < step,
    ;
}

/// Offsets do not decrease from one tile to the next.
pub proof fn lemma_offsets_ordered(step: nat, end: nat, i: int, j: int)
    requires
        tileable(step, end),
        0 <= i <= j < tile_count(step, end),
    ensures
        tile_offset(step, end, i) <= tile_offset(step, end, j),
{
    if i + 1 < tile_count(step, end) {
        lemma_inner_tile(step, end, i);
        if j + 1 < tile_count(step, end) {
            assert(i * step <= j * step) by (nonlinear_arith)
                requires
                    0 <= i <= j,
                    0 < step,
            ;
        }
    }
}

/// The first tile starts at 0, every tile lies inside the axis with its full
/// length, and the last tile ends where the axis ends.
pub proof fn lemma_tiles_fit(step: nat, end: nat, i: int)
    requires
        tileable(step, end),
        0 <= i < tile_count(step, end),
    ensures
        tile_offset(step, end, 0) == 0,
        0 <= tile_offset(step, end, i),
        tile_offset(step, end, i) + step <= end,
        tile_offset(step, end, tile_count(step, end) - 1) == end - step,
{
    if i + 1 < tile_count(step, end) {
        lemma_inner_tile(step, end, i);
    }
    if 1 < tile_count(step, end) {
        assert(0 * step == 0) by (nonlinear_arith);
    } else {
        let last = (end - 1) / (step as int);
        lemma_fundamental_div_mod(end - 1, step as int);
        lemma_mod_bound(end - 1, step as int);
        assert(step * 0 == 0) by (nonlinear_arith);
    }
}

/// The tiles leave no gap: every position of the axis lies in the tile that
/// this function names.
pub proof fn lemma_tiles_cover(step: nat, end: nat, position: int) -> (i: int)
    requires
        tileable(step, end),
        0 <= position < end,
    ensures
        0 <= i < tile_count(step, end),
        tile_offset(step, end, i) <= position < tile_offset(step, end, i) + step,
{
    let k = position / (step as int);
    let last = (end - 1) / (step as int);
    lemma_fundamental_div_mod(position, step as int);
    lemma_mod_bound(position, step as int);
    lemma_fundamental_div_mod(end - 1, step as int);
    lemma_mod_bound(end - 1, step as int);
    lemma_div_is_ordered(position, end - 1, step as int);
    lemma_div_is_ordered(0, position, step as int);
    assert(step * k == k * step && step * last == last * step) by (nonlinear_arith);
    if k + 1 < tile_count(step, end) {
        k
    } else {
        last
    }
}

/// The offsets of the tiles of length `step` over an axis of length `end`,
/// in order.
pub fn even_offsets(step: usize, end: usize) -> (offsets: Vec<usize>)
    requires
        tileable(step as nat, end as nat),
    ensures
        offsets@.len() == tile_count(step as nat, end as nat),
        forall|i: int|
            0 <= i < offsets@.len() ==> offsets@[i] as int == tile_offset(
                step as nat,
                end as nat,
                i,
            ),
        forall|i: int, j: int| 0 <= i <= j < offsets@.len() ==> offsets@[i] <= offsets@[j],
        end > 0 ==> offsets@.len() > 0 && offsets@[0] == 0,
        forall|i: int| 0 <= i < offsets@.len() ==> offsets@[i] + step <= end,
        offsets@.len() > 0 ==> offsets@[offsets@.len() - 1] == end - step,
{
    let mut offsets: Vec<usize> = Vec::new();
    if end == 0 {
        return offsets;
    }
    let limit: usize = end - step;
    let mut off: usize = 0;
    proof {
        assert(0 * (step as int) == 0) by (nonlinear_arith);
        lemma_div_is_ordered(0, end - 1, step as int);
    }
    while off < limit
        invariant
            step > 0,
            step <= end,
            limit == end - step,
            off <= limit + step - 1,
            off == offsets@.len() * step,
            offsets@.len() <= (end - 1) / (step as int),
            forall|i: int| 0 <= i < offsets@.len() ==> offsets@[i] as int == i * step,
        decreases end - off,
    {
        proof {
            lemma_below_limit(step as int, end as int, offsets@.len() as int);
        }
        offsets.push(off);
        off = off + step;
    }
    proof {
        lemma_at_limit(step as int, end as int, offsets@.len() as int);
    }
    offsets.push(limit);
    proof {
        assert forall|i: int, j: int| 0 <= i <= j < offsets@.len() implies offsets@[i]
            <= offsets@[j] by {
            lemma_offsets_ordered(step as nat, end as nat, i, j);
        }
        assert forall|i: int| 0 <= i < offsets@.len() implies offsets@[i] + step <= end by {
            lemma_tiles_fit(step as nat, end as nat, i);
        }
        lemma_tiles_fit(step as nat, end as nat, 0);
    }
    offsets
}

proof fn lemma_below_limit(step: int, end: int, k: int)
    requires
        0 < step <= end,
        0 <= k,
        k * step < end - step,
    ensures
        k + 1 <= (end - 1) / step,
        (k + 1) * step == k * step + step,
        (k + 1) * step <= end - 1,
{
    assert((k + 1) * step == k * step + step) by (nonlinear_arith);
    assert(k + 1 <= (end - 1) / step) by (nonlinear_arith)
        requires
            0 < step,
            (k + 1) * step <= end - 1,
    ;
}

proof fn lemma_at_limit(step: int, end: int, k: int)
    requires
        0 < step <= end,
        0 <= k <= (end - 1) / step,
        k * step >= end - step,
    ensures
        k == (end - 1) / step,
{
    assert(k >= (end - 1) / step) by (nonlinear_arith)
        requires
            0 < step,
            k * step >= end - step,
            0 <= k,
    ;
}

} // verus!
