//! The offsets of a square filter kernel around its centre.

use vstd::prelude::*;
use vstd::arithmetic::div_mod::lemma_fundamental_div_mod_converse;

verus! {

/// The side of the square: `2 half + 1` offsets, from `-half` to `half`.
pub open spec fn side_of(half: int) -> int {
    2 * half + 1
}

/// The offset pair at a flat index: rows first, each row from `-half` to
/// `half`.
pub open spec fn offset_at(half: int, flat: int) -> (int, int) {
    (flat / side_of(half) - half, flat % side_of(half) - half)
}

/// Whether `indices` holds every offset of the square once, row by row.
pub open spec fn is_offset_square(indices: Seq<[i32; 2]>, half: int) -> bool {
    &&& indices.len() == side_of(half) * side_of(half)
    &&& forall|flat: int|
        0 <= flat < indices.len() ==> {
            &&& (#[trigger] indices[flat])[0] == offset_at(half, flat).0
            &&& indices[flat][1] == offset_at(half, flat).1
        }
}

/// The flat index of row `row` and column `col` leads back to them.
pub proof fn lemma_offset_at_row_col(half: int, row: int, col: int)
    requires
        half >= 0,
        0 <= row < side_of(half),
        0 <= col < side_of(half),
    ensures
        0 <= row * side_of(half) + col < side_of(half) * side_of(half),
        offset_at(half, row * side_of(half) + col) == (row - half, col - half),
{
    let side = side_of(half);
    lemma_fundamental_div_mod_converse(row * side + col, side, row, col);
    assert(row * side + col < side * side) by (nonlinear_arith)
        requires
            0 <= row < side,
            0 <= col < side,
    ;
    assert(0 <= row * side + col) by (nonlinear_arith)
        requires
            0 <= row < side,
            0 <= col < side,
    ;
}

/// All pairs `[i, j]` with `-half <= i, j <= half`, for `i` from the least
/// to the greatest and, under each `i`, `j` likewise.
pub fn generate_indices(half_kernel_size: usize) -> (indices: Vec<[i32; 2]>)
    requires
        half_kernel_size <= i32::MAX,
    ensures
        is_offset_square(indices@, half_kernel_size as int),
{
    let half: i32 = half_kernel_size as i32;
    let ghost h: int = half_kernel_size as int;
    let ghost side: int = side_of(h);
    let mut indices: Vec<[i32; 2]> = Vec::new();
    let mut i: i32 = -half;
    let mut rows_left: bool = true;
    proof {
        assert((i + h) * side == 0) by (nonlinear_arith)
            requires
                i + h == 0,
        ;
    }
    while rows_left
        invariant
            h == half,
            0 <= h <= i32::MAX,
            side == 2 * h + 1,
            -h <= i <= h,
            rows_left ==> indices@.len() == (i + h) * side,
            !rows_left ==> i == h && indices@.len() == side * side,
            forall|flat: int|
                0 <= flat < indices@.len() ==> {
                    &&& (#[trigger] indices@[flat])[0] == offset_at(h, flat).0
                    &&& indices@[flat][1] == offset_at(h, flat).1
                },
        decreases (h - i) + (if rows_left { 1int } else { 0int }),
    {
        let mut j: i32 = -half;
        let mut cols_left: bool = true;
        while cols_left
            invariant
                h == half,
                0 <= h <= i32::MAX,
                side == 2 * h + 1,
                -h <= i <= h,
                -h <= j <= h,
                cols_left ==> indices@.len() == (i + h) * side + (j + h),
                !cols_left ==> j == h && indices@.len() == (i + h) * side + side,
                forall|flat: int|
                    0 <= flat < indices@.len() ==> {
                        &&& (#[trigger] indices@[flat])[0] == offset_at(h, flat).0
                        &&& indices@[flat][1] == offset_at(h, flat).1
                    },
            decreases (h - j) + (if cols_left { 1int } else { 0int }),
        {
            proof {
                lemma_offset_at_row_col(h, i + h, j + h);
            }
            indices.push([i, j]);
            if j < half {
                j = j + 1;
            } else {
                cols_left = false;
            }
        }
        proof {
            assert((i + h) * side + side == (i + 1 + h) * side) by (nonlinear_arith);
        }
        if i < half {
            i = i + 1;
        } else {
            rows_left = false;
        }
    }
    indices
}

} // verus!
