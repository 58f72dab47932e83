//! The grid of execution groups one dispatch is launched over.

use vstd::prelude::*;
use vstd::arithmetic::power2::{pow2, lemma_pow2_adds, lemma_pow2_pos, lemma_pow2_strictly_increases, lemma_pow2_unfold, lemma2_to64};
use vstd::bits::lemma_u32_shl_is_mul;

verus! {

/// The logarithm of the number of lanes of one execution group: a group
/// holds `2^8 = 256` lanes. An array of up to that many elements is covered
/// by one group. The value belongs to the kernel the backend runs.
pub const LOG_GROUP_CAPACITY: u32 = 8;

/// The largest `log_len` whose grid has both dimensions within a `u32`.
pub const MAX_GRID_LOG_LEN: u32 = 69;

/// The grid for an array of `2^log_len` elements: one group while one group
/// covers the array, then `2 half x half x 1` groups with
/// `half = 2^((log_len - 8) / 2)`.
pub open spec fn grid_of(log_len: nat) -> (nat, nat, nat) {
    if log_len <= LOG_GROUP_CAPACITY {
        (1, 1, 1)
    } else {
        let half = pow2(((log_len - LOG_GROUP_CAPACITY) / 2) as nat);
        (2 * half, half, 1)
    }
}

/// The number of groups of a grid.
pub open spec fn group_count(grid: (nat, nat, nat)) -> nat {
    grid.0 * grid.1 * grid.2
}

/// The grid's lanes reach every element: the groups times the lanes of a
/// group are at least `2^log_len`, and at most twice that once the array is
/// larger than one group. Where the array is an odd power of two times a
/// group, they are exactly `2^log_len`.
pub proof fn lemma_grid_covers(log_len: nat)
    ensures
        group_count(grid_of(log_len)) * pow2(LOG_GROUP_CAPACITY as nat) >= pow2(log_len),
        log_len > LOG_GROUP_CAPACITY ==> group_count(grid_of(log_len)) * pow2(
            LOG_GROUP_CAPACITY as nat,
        ) <= 2 * pow2(log_len),
        log_len > LOG_GROUP_CAPACITY && (log_len - LOG_GROUP_CAPACITY) % 2 == 1 ==> group_count(
            grid_of(log_len),
        ) * pow2(LOG_GROUP_CAPACITY as nat) == pow2(log_len),
{
    let cap = LOG_GROUP_CAPACITY as nat;
    if log_len <= cap {
        assert(group_count(grid_of(log_len)) == 1);
        if log_len < cap {
            lemma_pow2_strictly_increases(log_len, cap);
        }
    } else {
        let g = (log_len - cap) as nat;
        let h = g / 2;
        let half = pow2(h);
        lemma_pow2_pos(h);
        lemma_pow2_adds(h, h);
        lemma_pow2_unfold(2 * h + 1);
        assert(2 * half * half * 1 == 2 * (half * half)) by (nonlinear_arith);
        lemma_pow2_adds(2 * h + 1, cap);
        if g % 2 == 1 {
        } else {
            lemma_pow2_unfold(log_len + 1);
        }
    }
}

/// The grid over which every dispatch of a sort of `2^log_len` elements is
/// launched.
pub fn dispatch_grid(log_len: u32) -> (grid: (u32, u32, u32))
    requires
        log_len <= MAX_GRID_LOG_LEN,
    ensures
        (grid.0 as nat, grid.1 as nat, grid.2 as nat) == grid_of(log_len as nat),
        log_len <= LOG_GROUP_CAPACITY ==> grid == (1u32, 1u32, 1u32),
{
    if log_len <= LOG_GROUP_CAPACITY {
        (1, 1, 1)
    } else {
        let log_len_global: u32 = log_len - LOG_GROUP_CAPACITY;
        let shift: u32 = log_len_global / 2;
        proof {
            lemma2_to64();
            if shift < 30 {
                lemma_pow2_strictly_increases(shift as nat, 30);
            }
            lemma_u32_shl_is_mul(1u32, shift);
        }
        let len_global_div2: u32 = 1u32 << shift;
        (len_global_div2 * 2, len_global_div2, 1)
    }
}

/// The grid, or `None` where a dimension would not fit in a `u32`.
pub fn checked_dispatch_grid(log_len: u32) -> (grid: Option<(u32, u32, u32)>)
    ensures
        grid.is_some() <==> log_len <= MAX_GRID_LOG_LEN,
        grid matches Some(g) ==> (g.0 as nat, g.1 as nat, g.2 as nat) == grid_of(log_len as nat),
{
    if log_len <= MAX_GRID_LOG_LEN {
        Some(dispatch_grid(log_len))
    } else {
        None
    }
}

} // verus!
