//! Why one round of compare and exchange brings the array nearer to order.
//!
//! Fix a threshold and look only at which elements reach it. Through a whole
//! stage every group shows a band: the elements that reach the threshold are
//! those of one stretch of the group, or those outside one stretch. A round
//! splits each group into two halves that again show bands, and puts the
//! halves in order against each other. When the groups have shrunk to single
//! elements, every block is in order.

use vstd::prelude::*;
use vstd::arithmetic::div_mod::{lemma_fundamental_div_mod, lemma_fundamental_div_mod_converse, lemma_div_is_ordered};
use crate::network::{partner, sorts_upwards, exchanged, lemma_partner, lemma_partner_in_bounds, lemma_group_within_block};

verus! {

/// Whether, of two indices `i < j` of one block, the one the block's
/// direction puts first does not reach the threshold unless the other does.
pub open spec fn ordered_pair(a: Seq<u32>, c: u32, block: int, i: int, j: int) -> bool {
    if sorts_upwards(i, block) {
        a[i] >= c ==> a[j] >= c
    } else {
        a[j] >= c ==> a[i] >= c
    }
}

/// Whether every block is in order in its direction, as far as reaching
/// the threshold goes.
pub open spec fn blocks_in_order(a: Seq<u32>, c: u32, block: int) -> bool {
    forall|i: int, j: int|
        0 <= i < j < a.len() && i / block == j / block ==> #[trigger] ordered_pair(
            a,
            c,
            block,
            i,
            j,
        )
}

/// Whether, between `lo` and `hi`, the elements that reach the threshold are
/// those from `p` up to `q` (`inside`), or those outside that stretch.
pub open spec fn is_band(a: Seq<u32>, c: u32, lo: int, hi: int, p: int, q: int, inside: bool) -> bool {
    &&& lo <= p <= q <= hi
    &&& forall|i: int| lo <= i < hi ==> ((#[trigger] a[i]) >= c) == ((p <= i < q) == inside)
}

/// Whether the elements between `lo` and `hi` show a band.
pub open spec fn has_band(a: Seq<u32>, c: u32, lo: int, hi: int) -> bool {
    exists|p: int, q: int, inside: bool| is_band(a, c, lo, hi, p, q, inside)
}

/// Whether group number `g` of groups of `group` elements shows a band.
pub open spec fn group_banded(a: Seq<u32>, c: u32, group: int, g: int) -> bool {
    has_band(a, c, g * group, g * group + group)
}

/// Whether every whole group of the array shows a band.
pub open spec fn groups_banded(a: Seq<u32>, c: u32, group: int) -> bool {
    forall|g: int| 0 <= g && g * group + group <= a.len() ==> #[trigger] group_banded(a, c, group, g)
}

/// Whether the groups of one block stand in the block's order against each
/// other.
pub open spec fn groups_in_order(a: Seq<u32>, c: u32, block: int, group: int) -> bool {
    forall|i: int, j: int|
        0 <= i < j < a.len() && i / block == j / block && i / group != j / group
            ==> #[trigger] ordered_pair(a, c, block, i, j)
}

/// The band of the smaller elements of the pairs of a group, counted from the
/// start of a half, from the band of the group, counted from its start.
pub open spec fn band_of_smaller(p: int, q: int, inside: bool, dist: int) -> (int, int, bool) {
    if inside {
        if q - p >= dist {
            (p, q - dist, true)
        } else {
            (0, 0, true)
        }
    } else {
        if q - p >= dist {
            (0, 0, true)
        } else if q <= dist {
            (p, q, false)
        } else if p >= dist {
            (p - dist, q - dist, false)
        } else {
            (q - dist, p, true)
        }
    }
}

/// The band of the greater elements of the pairs of a group.
pub open spec fn band_of_greater(p: int, q: int, inside: bool, dist: int) -> (int, int, bool) {
    if inside {
        if q - p >= dist {
            (0, dist, true)
        } else if q <= dist {
            (p, q, true)
        } else if p >= dist {
            (p - dist, q - dist, true)
        } else {
            (q - dist, p, false)
        }
    } else {
        if q - p >= dist {
            (p, q - dist, false)
        } else {
            (0, dist, true)
        }
    }
}

/// An index at offset `r` of a group that starts at `lo` has remainder `r`.
pub proof fn lemma_offset_in_group(lo: int, group: int, r: int)
    requires
        1 <= group,
        0 <= lo,
        lo % group == 0,
        0 <= r < group,
    ensures
        (lo + r) % group == r,
        (lo + r) / group == lo / group,
{
    lemma_fundamental_div_mod(lo, group);
    assert(group * (lo / group) == (lo / group) * group) by (nonlinear_arith);
    lemma_fundamental_div_mod_converse(lo + r, group, lo / group, r);
}

/// Group number `g` starts at a multiple of the group's size, and its
/// indices are those whose quotient is `g`.
pub proof fn lemma_group_start(g: int, group: int)
    requires
        1 <= group,
        0 <= g,
    ensures
        0 <= g * group,
        (g * group) % group == 0,
        (g * group) / group == g,
{
    assert(0 <= g * group) by (nonlinear_arith)
        requires
            0 <= g,
            1 <= group,
    ;
    lemma_fundamental_div_mod_converse(g * group, group, g, 0);
}

/// One round on one group: both halves show bands, and the halves stand in
/// the block's order against each other.
pub proof fn lemma_round_on_group(
    a: Seq<u32>,
    c: u32,
    block: int,
    dist: int,
    lo: int,
    p: int,
    q: int,
    inside: bool,
)
    requires
        1 <= dist,
        0 <= lo,
        lo % (2 * dist) == 0,
        lo + 2 * dist <= a.len(),
        forall|i: int|
            lo <= i < lo + 2 * dist ==> #[trigger] sorts_upwards(i, block) == sorts_upwards(
                lo,
                block,
            ),
        is_band(a, c, lo, lo + 2 * dist, p, q, inside),
    ensures
        has_band(exchanged(a, block, dist), c, lo, lo + dist),
        has_band(exchanged(a, block, dist), c, lo + dist, lo + 2 * dist),
        forall|i: int, j: int|
            lo <= i < lo + dist && lo + dist <= j < lo + 2 * dist ==> #[trigger] ordered_pair(
                exchanged(a, block, dist),
                c,
                block,
                i,
                j,
            ),
{
    let b = exchanged(a, block, dist);
    let up = sorts_upwards(lo, block);
    let small = band_of_smaller(p - lo, q - lo, inside, dist);
    let great = band_of_greater(p - lo, q - lo, inside, dist);
    let first = if up {
        small
    } else {
        great
    };
    let second = if up {
        great
    } else {
        small
    };
    assert forall|i: int| lo <= i < lo + dist implies ((#[trigger] b[i]) >= c) == ((lo + first.0 <= i
        < lo + first.1) == first.2) by {
        lemma_offset_in_group(lo, 2 * dist, i - lo);
    }
    assert(is_band(b, c, lo, lo + dist, lo + first.0, lo + first.1, first.2));
    assert forall|i: int| lo + dist <= i < lo + 2 * dist implies ((#[trigger] b[i]) >= c) == ((lo
        + dist + second.0 <= i < lo + dist + second.1) == second.2) by {
        lemma_offset_in_group(lo, 2 * dist, i - lo);
    }
    assert(is_band(
        b,
        c,
        lo + dist,
        lo + 2 * dist,
        lo + dist + second.0,
        lo + dist + second.1,
        second.2,
    ));
    assert forall|i: int, j: int|
        lo <= i < lo + dist && lo + dist <= j < lo + 2 * dist implies #[trigger] ordered_pair(
        b,
        c,
        block,
        i,
        j,
    ) by {}
}

/// One round on the whole array: where the groups of `2 dist` elements show
/// bands and stand in order within their blocks, the groups of `dist`
/// elements do so afterwards.
pub proof fn lemma_round_halves_groups(a: Seq<u32>, c: u32, dist: int, per_block: int, groups: int)
    requires
        1 <= dist,
        1 <= per_block,
        0 <= groups,
        a.len() == groups * (2 * dist),
        groups_banded(a, c, 2 * dist),
        groups_in_order(a, c, 2 * dist * per_block, 2 * dist),
    ensures
        groups_banded(exchanged(a, 2 * dist * per_block, dist), c, dist),
        groups_in_order(exchanged(a, 2 * dist * per_block, dist), c, 2 * dist * per_block, dist),
{
    let group = 2 * dist;
    let block = group * per_block;
    let b = exchanged(a, block, dist);
    assert forall|h: int| 0 <= h && h * dist + dist <= b.len() implies #[trigger] group_banded(
        b,
        c,
        dist,
        h,
    ) by {
        let g = h / 2;
        let lo = g * group;
        lemma_group_start(g, group);
        assert(g * (2 * dist) == (2 * g) * dist) by (nonlinear_arith);
        assert(h * dist == lo || h * dist == lo + dist) by (nonlinear_arith)
            requires
                h == 2 * g || h == 2 * g + 1,
                lo == (2 * g) * dist,
        ;
        assert(g < groups) by (nonlinear_arith)
            requires
                g * (2 * dist) + dist <= groups * (2 * dist),
                1 <= dist,
        ;
        assert(g * (2 * dist) + 2 * dist <= groups * (2 * dist)) by (nonlinear_arith)
            requires
                g + 1 <= groups,
                1 <= dist,
        ;
        lemma_whole_group_in_block(lo, group, per_block);
        assert(group_banded(a, c, group, g));
        let hi = lo + group;
        let (p, q, inside) = choose|p: int, q: int, inside: bool|
            is_band(a, c, lo, hi, p, q, inside);
        lemma_round_on_group(a, c, block, dist, lo, p, q, inside);
    }
    assert forall|i: int, j: int|
        0 <= i < j < b.len() && i / block == j / block && i / dist != j / dist
            implies #[trigger] ordered_pair(b, c, block, i, j) by {
        lemma_pair_in_order_after_round(a, c, dist, per_block, groups, i, j);
    }
}

/// All indices of a group give the direction of the group's first index.
pub proof fn lemma_whole_group_in_block(lo: int, group: int, per_block: int)
    requires
        1 <= group,
        1 <= per_block,
        0 <= lo,
        lo % group == 0,
    ensures
        forall|i: int|
            lo <= i < lo + group ==> #[trigger] sorts_upwards(i, group * per_block)
                == sorts_upwards(lo, group * per_block),
{
    assert forall|i: int| lo <= i < lo + group implies #[trigger] sorts_upwards(
        i,
        group * per_block,
    ) == sorts_upwards(lo, group * per_block) by {
        lemma_offset_in_group(lo, group, i - lo);
        lemma_group_within_block(i, lo, group, per_block);
    }
}

/// After a round, two indices of one block that lie in different halves or
/// different groups stand in the block's order.
proof fn lemma_pair_in_order_after_round(
    a: Seq<u32>,
    c: u32,
    dist: int,
    per_block: int,
    groups: int,
    i: int,
    j: int,
)
    requires
        1 <= dist,
        1 <= per_block,
        0 <= groups,
        a.len() == groups * (2 * dist),
        groups_banded(a, c, 2 * dist),
        groups_in_order(a, c, 2 * dist * per_block, 2 * dist),
        0 <= i < j < a.len(),
        i / (2 * dist * per_block) == j / (2 * dist * per_block),
        i / dist != j / dist,
    ensures
        ordered_pair(exchanged(a, 2 * dist * per_block, dist), c, 2 * dist * per_block, i, j),
{
    let group = 2 * dist;
    let block = group * per_block;
    let g = i / group;
    lemma_fundamental_div_mod(i, group);
    lemma_fundamental_div_mod(j, group);
    lemma_div_is_ordered(i, j, group);
    if j / group == g {
        let lo = g * group;
        assert(0 <= g) by (nonlinear_arith)
            requires
                i == group * g + i % group,
                0 <= i,
                0 <= i % group < group,
        ;
        lemma_group_start(g, group);
        assert(group * g == g * group) by (nonlinear_arith);
        let ri = i - lo;
        let rj = j - lo;
        if rj < dist {
            assert(g * (2 * dist) == (2 * g) * dist) by (nonlinear_arith);
            lemma_fundamental_div_mod_converse(i, dist, 2 * g, ri);
            lemma_fundamental_div_mod_converse(j, dist, 2 * g, rj);
        } else if dist <= ri {
            assert(g * (2 * dist) + dist == (2 * g + 1) * dist) by (nonlinear_arith);
            lemma_fundamental_div_mod_converse(i, dist, 2 * g + 1, ri - dist);
            lemma_fundamental_div_mod_converse(j, dist, 2 * g + 1, rj - dist);
        }
        assert(g < groups) by (nonlinear_arith)
            requires
                g * group <= j,
                j < groups * group,
                group >= 1,
        ;
        assert(g * group + group <= groups * group) by (nonlinear_arith)
            requires
                g + 1 <= groups,
                group >= 1,
        ;
        lemma_whole_group_in_block(lo, group, per_block);
        assert(group_banded(a, c, group, g));
        let hi = lo + group;
        let (p, q, inside) = choose|p: int, q: int, inside: bool|
            is_band(a, c, lo, hi, p, q, inside);
        lemma_round_on_group(a, c, block, dist, lo, p, q, inside);
    } else {
        let pi = partner(i, dist);
        let pj = partner(j, dist);
        lemma_partner(i, dist);
        lemma_partner(j, dist);
        lemma_partner_in_bounds(i, dist, groups);
        lemma_partner_in_bounds(j, dist, groups);
        lemma_group_within_block(i, pi, group, per_block);
        lemma_group_within_block(j, pj, group, per_block);
        if pi >= j {
            lemma_div_is_ordered(j, pi, group);
        }
        if pi >= pj {
            lemma_div_is_ordered(pj, pi, group);
        }
        if i >= pj {
            lemma_div_is_ordered(pj, i, group);
        }
        assert(ordered_pair(a, c, block, i, j));
        assert(ordered_pair(a, c, block, i, pj));
        assert(ordered_pair(a, c, block, pi, j));
        assert(ordered_pair(a, c, block, pi, pj));
    }
}

} // verus!
