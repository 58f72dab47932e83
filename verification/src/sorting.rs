//! The plan sorts: run in its order on an array of `2^k` elements, it leaves
//! the elements it found, in ascending order.

use vstd::prelude::*;
use vstd::arithmetic::div_mod::lemma_fundamental_div_mod_converse;
use vstd::arithmetic::power2::{pow2, lemma_pow2_adds, lemma_pow2_pos, lemma_pow2_unfold, lemma2_to64};
use vstd::seq_lib::lemma_sorted_unique;
use crate::bands::{ordered_pair, blocks_in_order, is_band, group_banded, groups_banded, groups_in_order, lemma_group_start, lemma_round_halves_groups};
use crate::network::{sorts_upwards, run, run_plan, dist_of, lemma_run_concat};
use crate::permutation::{entries_fit, lemma_dispatch_geometry, lemma_run_permutes};
use crate::sequencer::{plan_entries, plan_prefix, stage_entries, lemma_plan_entries_in_range};

verus! {

/// Whether no element is greater than one that follows it.
pub open spec fn is_ascending(s: Seq<u32>) -> bool {
    forall|i: int, j: int| 0 <= i <= j < s.len() ==> s[i] <= s[j]
}

/// Whether `after` holds the elements of `before`, each as often.
pub open spec fn same_elements(before: Seq<u32>, after: Seq<u32>) -> bool {
    before.to_multiset() == after.to_multiset()
}

/// In a stretch that is in order in one direction, the elements that reach
/// the threshold are those from some index on, or those before it.
proof fn lemma_turning_point(a: Seq<u32>, c: u32, block: int, lo: int, hi: int) -> (turn: int)
    requires
        0 <= lo <= hi <= a.len(),
        forall|i: int, j: int| lo <= i < j < hi ==> #[trigger] ordered_pair(a, c, block, i, j),
        forall|i: int|
            lo <= i < hi ==> #[trigger] sorts_upwards(i, block) == sorts_upwards(lo, block),
    ensures
        lo <= turn <= hi,
        forall|i: int|
            lo <= i < hi ==> ((#[trigger] a[i]) >= c) == (if sorts_upwards(lo, block) {
                turn <= i
            } else {
                i < turn
            }),
    decreases hi - lo,
{
    if lo == hi {
        lo
    } else if sorts_upwards(lo, block) == (a[lo] >= c) {
        assert forall|i: int| lo <= i < hi implies ((#[trigger] a[i]) >= c) == (if sorts_upwards(
            lo,
            block,
        ) {
            lo <= i
        } else {
            i < lo
        }) by {
            if lo < i {
                assert(ordered_pair(a, c, block, lo, i));
            }
        }
        lo
    } else {
        lemma_turning_point(a, c, block, lo + 1, hi)
    }
}

/// At the start of a stage every block shows a band: its first half is in
/// order upwards and its second half downwards, from the stage before.
proof fn lemma_stage_starts_banded(a: Seq<u32>, c: u32, half: int, blocks: int)
    requires
        1 <= half,
        0 <= blocks,
        a.len() == blocks * (2 * half),
        blocks_in_order(a, c, half),
    ensures
        groups_banded(a, c, 2 * half),
        groups_in_order(a, c, 2 * half, 2 * half),
{
    let block = 2 * half;
    assert forall|g: int| 0 <= g && g * block + block <= a.len() implies #[trigger] group_banded(
        a,
        c,
        block,
        g,
    ) by {
        let lo = g * block;
        let mid = lo + half;
        let hi = lo + block;
        lemma_group_start(g, block);
        assert(g * (2 * half) == (2 * g) * half) by (nonlinear_arith);
        assert(g * (2 * half) + half == (2 * g + 1) * half) by (nonlinear_arith);
        lemma_fundamental_div_mod_converse(lo, half, 2 * g, 0);
        lemma_fundamental_div_mod_converse(mid, half, 2 * g + 1, 0);
        assert forall|i: int| lo <= i < mid implies #[trigger] sorts_upwards(i, half)
            == sorts_upwards(lo, half) by {
            lemma_fundamental_div_mod_converse(i, half, 2 * g, i - lo);
        }
        assert forall|i: int| mid <= i < hi implies #[trigger] sorts_upwards(i, half)
            == sorts_upwards(mid, half) by {
            lemma_fundamental_div_mod_converse(i, half, 2 * g + 1, i - mid);
        }
        assert forall|i: int, j: int| lo <= i < j < mid implies #[trigger] ordered_pair(
            a,
            c,
            half,
            i,
            j,
        ) by {
            lemma_fundamental_div_mod_converse(i, half, 2 * g, i - lo);
            lemma_fundamental_div_mod_converse(j, half, 2 * g, j - lo);
        }
        assert forall|i: int, j: int| mid <= i < j < hi implies #[trigger] ordered_pair(
            a,
            c,
            half,
            i,
            j,
        ) by {
            lemma_fundamental_div_mod_converse(i, half, 2 * g + 1, i - mid);
            lemma_fundamental_div_mod_converse(j, half, 2 * g + 1, j - mid);
        }
        let p = lemma_turning_point(a, c, half, lo, mid);
        let q = lemma_turning_point(a, c, half, mid, hi);
        assert(is_band(a, c, lo, hi, p, q, true));
    }
}

/// At the end of a stage, when the groups are single elements, every block
/// is in order.
proof fn lemma_stage_ends_in_order(a: Seq<u32>, c: u32, block: int)
    requires
        groups_in_order(a, c, block, 1),
    ensures
        blocks_in_order(a, c, block),
{
}

/// The first `steps` steps of a stage halve the groups `steps` times and
/// keep them banded and in order.
proof fn lemma_steps_halve_groups(x: Seq<u32>, c: u32, log_len: u32, stage: nat, steps: nat)
    requires
        x.len() == pow2(log_len as nat),
        1 <= stage <= log_len,
        steps <= stage,
        groups_banded(x, c, pow2(stage) as int),
        groups_in_order(x, c, pow2(stage) as int, pow2(stage) as int),
    ensures
        run(x, stage_entries(log_len, stage).take(steps as int)).len() == x.len(),
        groups_banded(
            run(x, stage_entries(log_len, stage).take(steps as int)),
            c,
            pow2((stage - steps) as nat) as int,
        ),
        groups_in_order(
            run(x, stage_entries(log_len, stage).take(steps as int)),
            c,
            pow2(stage) as int,
            pow2((stage - steps) as nat) as int,
        ),
    decreases steps,
{
    let entries = stage_entries(log_len, stage);
    if steps > 0 {
        let t = (steps - 1) as nat;
        lemma_steps_halve_groups(x, c, log_len, stage, t);
        let w = run(x, entries.take(t as int));
        let e = entries[t as int];
        assert(entries.take(steps as int).drop_last() =~= entries.take(t as int));
        lemma_dispatch_geometry(e);
        let dist = dist_of(e);
        let per_block = pow2(t) as int;
        let groups = pow2(e.log_group_curr as nat) as int;
        lemma_pow2_unfold((stage - t) as nat);
        assert(groups * (2 * dist) == pow2(log_len as nat)) by (nonlinear_arith)
            requires
                pow2(log_len as nat) == pow2(e.log_group_curr as nat) * (2 * dist),
                groups == pow2(e.log_group_curr as nat),
        ;
        lemma_round_halves_groups(w, c, dist, per_block, groups);
    }
}

/// After the first `stages` stages every block of `2^stages` elements is in
/// order in its direction.
proof fn lemma_stages_put_blocks_in_order(a: Seq<u32>, c: u32, log_len: u32, stages: nat)
    requires
        a.len() == pow2(log_len as nat),
        stages <= log_len,
    ensures
        run(a, plan_prefix(log_len, stages)).len() == a.len(),
        blocks_in_order(run(a, plan_prefix(log_len, stages)), c, pow2(stages) as int),
    decreases stages,
{
    if stages == 0 {
        lemma2_to64();
    } else {
        let before = (stages - 1) as nat;
        lemma_stages_put_blocks_in_order(a, c, log_len, before);
        let x = run(a, plan_prefix(log_len, before));
        let half = pow2(before) as int;
        let blocks = pow2((log_len - stages) as nat) as int;
        lemma_pow2_pos(before);
        lemma_pow2_unfold(stages);
        lemma_pow2_adds((log_len - stages) as nat, stages);
        assert(blocks * (2 * half) == pow2(log_len as nat)) by (nonlinear_arith)
            requires
                pow2(log_len as nat) == pow2((log_len - stages) as nat) * pow2(stages),
                pow2(stages) == 2 * half,
                blocks == pow2((log_len - stages) as nat),
        ;
        lemma_stage_starts_banded(x, c, half, blocks);
        lemma_steps_halve_groups(x, c, log_len, stages, stages);
        let entries = stage_entries(log_len, stages);
        assert(entries.take(stages as int) =~= entries);
        let y = run(x, entries);
        lemma2_to64();
        lemma_stage_ends_in_order(y, c, pow2(stages) as int);
        lemma_run_concat(a, plan_prefix(log_len, before), entries);
    }
}

/// Every entry of a plan is in range and made for the plan's length.
pub proof fn lemma_plan_fits(log_len: u32)
    ensures
        entries_fit(plan_entries(log_len), log_len),
{
    assert forall|i: int| 0 <= i < plan_entries(log_len).len() implies (#[trigger] plan_entries(
        log_len,
    )[i]).in_range() && plan_entries(log_len)[i].log_len == log_len by {
        lemma_plan_entries_in_range(log_len, i);
    }
}

/// The plan sorts. For every array of `2^k` elements, the array after the
/// whole plan is in ascending order and holds the elements of the array
/// before it, each as often.
pub proof fn lemma_plan_sorts(a: Seq<u32>, log_len: u32)
    requires
        a.len() == pow2(log_len as nat),
    ensures
        run_plan(a, log_len).len() == a.len(),
        is_ascending(run_plan(a, log_len)),
        same_elements(a, run_plan(a, log_len)),
{
    let r = run_plan(a, log_len);
    let n = pow2(log_len as nat) as int;
    lemma_plan_fits(log_len);
    lemma_run_permutes(a, plan_entries(log_len), log_len);
    assert forall|i: int, j: int| 0 <= i <= j < r.len() implies r[i] <= r[j] by {
        if i < j {
            let c = r[i];
            lemma_stages_put_blocks_in_order(a, c, log_len, log_len as nat);
            lemma_fundamental_div_mod_converse(i, n, 0, i);
            lemma_fundamental_div_mod_converse(j, n, 0, j);
            assert(ordered_pair(r, c, n, i, j));
        }
    }
}

/// The order `<=` on elements, as a relation.
pub open spec fn at_most() -> spec_fn(u32, u32) -> bool {
    |x: u32, y: u32| x <= y
}

/// There is one ascending arrangement of given elements.
pub proof fn lemma_ascending_is_unique(x: Seq<u32>, y: Seq<u32>)
    requires
        is_ascending(x),
        is_ascending(y),
        same_elements(x, y),
    ensures
        x == y,
{
    lemma_sorted_unique(x, y, at_most());
}

/// Sorting is determined by its input: two outcomes that are both in
/// ascending order and both hold the input's elements are the same, element
/// for element.
pub proof fn lemma_sorting_is_determined(input: Seq<u32>, first: Seq<u32>, second: Seq<u32>)
    requires
        is_ascending(first),
        same_elements(input, first),
        is_ascending(second),
        same_elements(input, second),
    ensures
        first == second,
{
    lemma_ascending_is_unique(first, second);
}

/// Running the plan on an array that is in ascending order already leaves
/// every element where it is.
pub proof fn lemma_sorted_stays(a: Seq<u32>, log_len: u32)
    requires
        a.len() == pow2(log_len as nat),
        is_ascending(a),
    ensures
        run_plan(a, log_len) == a,
{
    lemma_plan_sorts(a, log_len);
    lemma_ascending_is_unique(run_plan(a, log_len), a);
}

/// Running the plan twice gives what running it once gives.
pub proof fn lemma_plan_is_idempotent(a: Seq<u32>, log_len: u32)
    requires
        a.len() == pow2(log_len as nat),
    ensures
        run_plan(run_plan(a, log_len), log_len) == run_plan(a, log_len),
{
    lemma_plan_sorts(a, log_len);
    lemma_sorted_stays(run_plan(a, log_len), log_len);
}

/// The result depends on which elements the array holds and on nothing
/// else: two arrays of the same elements come out the same.
pub proof fn lemma_result_depends_on_elements(a: Seq<u32>, b: Seq<u32>, log_len: u32)
    requires
        a.len() == pow2(log_len as nat),
        b.len() == pow2(log_len as nat),
        same_elements(a, b),
    ensures
        run_plan(a, log_len) == run_plan(b, log_len),
{
    lemma_plan_sorts(a, log_len);
    lemma_plan_sorts(b, log_len);
    lemma_ascending_is_unique(run_plan(a, log_len), run_plan(b, log_len));
}

} // verus!
