//! The comparator network on the host: what one dispatch does to the array,
//! and what a whole plan does.
//!
//! One dispatch compares every element with its partner, the element at a
//! fixed distance in the same group, and leaves the smaller of the two at the
//! lower index where the element's block sorts upwards, at the higher index
//! where it sorts downwards. All pairs are apart from each other, so the
//! accelerator may take them in any order; the model here takes the array
//! before the dispatch and gives the array after it.

use vstd::prelude::*;
use vstd::arithmetic::div_mod::{lemma_fundamental_div_mod, lemma_fundamental_div_mod_converse, lemma_div_denominator};
use vstd::arithmetic::power2::pow2;
use crate::params::StageParameters;
use crate::sequencer::plan_entries;

verus! {

/// Whether `i` is the lower index of its pair: it lies in the first half of
/// its group of `2 dist` elements.
pub open spec fn is_lower(i: int, dist: int) -> bool {
    i % (2 * dist) < dist
}

/// The index `i` is compared with.
pub open spec fn partner(i: int, dist: int) -> int {
    if is_lower(i, dist) {
        i + dist
    } else {
        i - dist
    }
}

/// Whether the block of `block` elements that holds `i` sorts upwards: the
/// blocks do so in turn, the first one upwards.
pub open spec fn sorts_upwards(i: int, block: int) -> bool {
    (i / block) % 2 == 0
}

/// The smaller of two elements.
pub open spec fn smaller(a: u32, b: u32) -> u32 {
    if a <= b {
        a
    } else {
        b
    }
}

/// The greater of two elements.
pub open spec fn greater(a: u32, b: u32) -> u32 {
    if a <= b {
        b
    } else {
        a
    }
}

/// The element at `i` after one round of compare and exchange at distance
/// `dist`, with the directions of blocks of `block` elements.
pub open spec fn exchanged_at(a: Seq<u32>, block: int, dist: int, i: int) -> u32 {
    let j = partner(i, dist);
    if is_lower(i, dist) == sorts_upwards(i, block) {
        smaller(a[i], a[j])
    } else {
        greater(a[i], a[j])
    }
}

/// The array after one round of compare and exchange.
pub open spec fn exchanged(a: Seq<u32>, block: int, dist: int) -> Seq<u32> {
    Seq::new(a.len(), |i: int| exchanged_at(a, block, dist, i))
}

/// The size of the blocks whose directions a dispatch goes by:
/// `2^(log_len - log_group_init)`, which is `2^stage`.
pub open spec fn block_of(params: StageParameters) -> int {
    pow2((params.log_len - params.log_group_init) as nat) as int
}

/// The distance between the two elements of a pair:
/// `2^(log_len - log_group_curr - 1)`, half a group of the current step.
pub open spec fn dist_of(params: StageParameters) -> int {
    pow2((params.log_len - params.log_group_curr - 1) as nat) as int
}

/// The array after the dispatch with `params`.
pub open spec fn dispatched(a: Seq<u32>, params: StageParameters) -> Seq<u32> {
    exchanged(a, block_of(params), dist_of(params))
}

/// The array after the dispatches of `entries`, one after the other in their
/// order.
pub open spec fn run(a: Seq<u32>, entries: Seq<StageParameters>) -> Seq<u32>
    decreases entries.len(),
{
    if entries.len() == 0 {
        a
    } else {
        dispatched(run(a, entries.drop_last()), entries.last())
    }
}

/// The array after the whole plan for `2^log_len` elements.
pub open spec fn run_plan(a: Seq<u32>, log_len: u32) -> Seq<u32> {
    run(a, plan_entries(log_len))
}

/// The two indices of a pair lie in the same group, one in each half, and
/// each is the other's partner.
pub proof fn lemma_partner(i: int, dist: int)
    requires
        0 <= i,
        1 <= dist,
    ensures
        0 <= partner(i, dist),
        is_lower(partner(i, dist), dist) != is_lower(i, dist),
        partner(partner(i, dist), dist) == i,
        partner(i, dist) / (2 * dist) == i / (2 * dist),
{
    let group = 2 * dist;
    let q = i / group;
    let r = i % group;
    lemma_fundamental_div_mod(i, group);
    assert(group * q == q * group) by (nonlinear_arith);
    if r < dist {
        lemma_fundamental_div_mod_converse(i + dist, group, q, r + dist);
    } else {
        assert(q >= 0) by (nonlinear_arith)
            requires
                i == group * q + r,
                0 <= i,
                0 <= r < group,
                group > 0,
        ;
        assert(group * q >= 0) by (nonlinear_arith)
            requires
                q >= 0,
                group > 0,
        ;
        lemma_fundamental_div_mod_converse(i - dist, group, q, r - dist);
    }
}

/// In an array of whole groups, every partner lies within the array.
pub proof fn lemma_partner_in_bounds(i: int, dist: int, groups: int)
    requires
        1 <= dist,
        0 <= i < groups * (2 * dist),
    ensures
        0 <= partner(i, dist) < groups * (2 * dist),
{
    let group = 2 * dist;
    let q = i / group;
    let r = i % group;
    lemma_fundamental_div_mod(i, group);
    lemma_partner(i, dist);
    if r < dist {
        assert(q < groups) by (nonlinear_arith)
            requires
                i == group * q + r,
                i < groups * group,
                0 <= r,
                group > 0,
        ;
        assert(group * q + group <= groups * group) by (nonlinear_arith)
            requires
                q < groups,
                group > 0,
        ;
    }
}

/// Two indices of one group lie in one block, where blocks are made of whole
/// groups.
pub proof fn lemma_group_within_block(i: int, j: int, group: int, per_block: int)
    requires
        0 <= i,
        0 <= j,
        1 <= group,
        1 <= per_block,
        i / group == j / group,
    ensures
        i / (group * per_block) == j / (group * per_block),
{
    lemma_div_denominator(i, group, per_block);
    lemma_div_denominator(j, group, per_block);
}

/// Dispatches keep the length.
pub proof fn lemma_run_len(a: Seq<u32>, entries: Seq<StageParameters>)
    ensures
        run(a, entries).len() == a.len(),
    decreases entries.len(),
{
    if entries.len() > 0 {
        lemma_run_len(a, entries.drop_last());
    }
}

/// Running one list of dispatches and then another is running the two lists
/// joined.
pub proof fn lemma_run_concat(a: Seq<u32>, first: Seq<StageParameters>, second: Seq<StageParameters>)
    ensures
        run(a, first + second) == run(run(a, first), second),
    decreases second.len(),
{
    if second.len() == 0 {
    } else {
        lemma_run_concat(a, first, second.drop_last());
        assert((first + second).drop_last() =~= first + second.drop_last());
    }
}

} // verus!
