//! Dispatches move elements and neither lose nor make any.

use vstd::prelude::*;
use vstd::arithmetic::power2::{pow2, lemma_pow2_adds, lemma_pow2_pos, lemma_pow2_unfold};
use vstd::seq_lib::{to_multiset_update, group_to_multiset_ensures};
use vstd::multiset::group_multiset_axioms;
use crate::network::{is_lower, exchanged, exchanged_at, dispatched, run, block_of, dist_of, lemma_partner, lemma_partner_in_bounds, lemma_group_within_block};
use crate::params::StageParameters;

verus! {

/// The lower index of the pair that holds `i`.
pub open spec fn lower_of(i: int, dist: int) -> int {
    if is_lower(i, dist) {
        i
    } else {
        i - dist
    }
}

/// The array when the pairs whose lower index is below `done` have been
/// compared and exchanged and the others have not.
pub open spec fn partly_exchanged(a: Seq<u32>, block: int, dist: int, done: int) -> Seq<u32> {
    Seq::new(
        a.len(),
        |i: int|
            if lower_of(i, dist) < done {
                exchanged_at(a, block, dist, i)
            } else {
                a[i]
            },
    )
}

/// Exchanging two elements of a sequence keeps what it holds.
pub proof fn lemma_exchange_keeps_elements(s: Seq<u32>, i: int, j: int)
    requires
        0 <= i < s.len(),
        0 <= j < s.len(),
        i != j,
    ensures
        s.update(i, s[j]).update(j, s[i]).to_multiset() == s.to_multiset(),
{
    broadcast use group_multiset_axioms;
    broadcast use group_to_multiset_ensures;

    let x = s[i];
    let y = s[j];
    let s1 = s.update(i, y);
    to_multiset_update(s, i, y);
    to_multiset_update(s1, j, x);
}

/// However many pairs have been taken, the array holds the same elements.
proof fn lemma_partly_exchanged_permutes(
    a: Seq<u32>,
    dist: int,
    per_block: int,
    groups: int,
    done: int,
)
    requires
        1 <= dist,
        1 <= per_block,
        a.len() == groups * (2 * dist),
        0 <= done <= a.len(),
    ensures
        partly_exchanged(a, 2 * dist * per_block, dist, done).to_multiset() == a.to_multiset(),
    decreases done,
{
    let block = 2 * dist * per_block;
    let now = partly_exchanged(a, block, dist, done);
    assert forall|i: int| 0 <= i < a.len() implies 0 <= lower_of(i, dist) && is_lower(
        lower_of(i, dist),
        dist,
    ) by {
        lemma_partner(i, dist);
    }
    if done == 0 {
        assert(now =~= a);
    } else {
        let at = done - 1;
        let before = partly_exchanged(a, block, dist, at);
        lemma_partly_exchanged_permutes(a, dist, per_block, groups, at);
        if !is_lower(at, dist) {
            assert(now =~= before);
        } else {
            let other = at + dist;
            lemma_partner(at, dist);
            lemma_partner_in_bounds(at, dist, groups);
            lemma_group_within_block(at, other, 2 * dist, per_block);
            if now[at] == a[at] && now[other] == a[other] {
                assert(now =~= before);
            } else {
                assert(now =~= before.update(at, before[other]).update(other, before[at]));
                lemma_exchange_keeps_elements(before, at, other);
            }
        }
    }
}

/// One round of compare and exchange holds the same elements as the array
/// it started from, where the array is made of whole groups and a block of
/// whole groups.
pub proof fn lemma_exchanged_permutes(a: Seq<u32>, dist: int, per_block: int, groups: int)
    requires
        1 <= dist,
        1 <= per_block,
        0 <= groups,
        a.len() == groups * (2 * dist),
    ensures
        exchanged(a, 2 * dist * per_block, dist).to_multiset() == a.to_multiset(),
{
    let block = 2 * dist * per_block;
    lemma_partly_exchanged_permutes(a, dist, per_block, groups, a.len() as int);
    assert forall|i: int| 0 <= i < a.len() implies lower_of(i, dist) < a.len() by {
        lemma_partner(i, dist);
    }
    assert(partly_exchanged(a, block, dist, a.len() as int) =~= exchanged(a, block, dist));
}

/// How block and distance of a dispatch divide an array of `2^log_len`
/// elements: a group is two distances, a block is `2^step` groups, the array
/// is `2^log_group_curr` groups.
pub proof fn lemma_dispatch_geometry(params: StageParameters)
    requires
        params.in_range(),
    ensures
        1 <= dist_of(params),
        block_of(params) == 2 * dist_of(params) * pow2(
            (params.log_group_curr - params.log_group_init) as nat,
        ),
        pow2(params.log_len as nat) == pow2(params.log_group_curr as nat) * (2 * dist_of(params)),
        1 <= pow2((params.log_group_curr - params.log_group_init) as nat),
{
    let k = params.log_len as nat;
    let init = params.log_group_init as nat;
    let curr = params.log_group_curr as nat;
    let half = (k - curr - 1) as nat;
    let steps = (curr - init) as nat;
    lemma_pow2_pos(half);
    lemma_pow2_pos(steps);
    lemma_pow2_unfold(half + 1);
    lemma_pow2_adds(half + 1, steps);
    lemma_pow2_adds(curr, half + 1);
    assert(pow2(half + 1) * pow2(steps) == 2 * pow2(half) * pow2(steps)) by (nonlinear_arith)
        requires
            pow2(half + 1) == 2 * pow2(half),
    ;
}

/// One dispatch holds the same elements as the array it started from.
pub proof fn lemma_dispatched_permutes(a: Seq<u32>, params: StageParameters)
    requires
        params.in_range(),
        a.len() == pow2(params.log_len as nat),
    ensures
        dispatched(a, params).to_multiset() == a.to_multiset(),
        dispatched(a, params).len() == a.len(),
{
    lemma_dispatch_geometry(params);
    lemma_exchanged_permutes(
        a,
        dist_of(params),
        pow2((params.log_group_curr - params.log_group_init) as nat) as int,
        pow2(params.log_group_curr as nat) as int,
    );
}

/// Whether every entry is in range and made for `log_len`.
pub open spec fn entries_fit(entries: Seq<StageParameters>, log_len: u32) -> bool {
    forall|i: int|
        0 <= i < entries.len() ==> (#[trigger] entries[i]).in_range() && entries[i].log_len
            == log_len
}

/// Any list of dispatches made for the array's length holds the same
/// elements as the array it started from.
pub proof fn lemma_run_permutes(a: Seq<u32>, entries: Seq<StageParameters>, log_len: u32)
    requires
        a.len() == pow2(log_len as nat),
        entries_fit(entries, log_len),
    ensures
        run(a, entries).to_multiset() == a.to_multiset(),
        run(a, entries).len() == a.len(),
    decreases entries.len(),
{
    if entries.len() > 0 {
        let front = entries.drop_last();
        assert forall|i: int| 0 <= i < front.len() implies (#[trigger] front[i]).in_range()
            && front[i].log_len == log_len by {}
        lemma_run_permutes(a, front, log_len);
        lemma_dispatched_permutes(run(a, front), entries.last());
    }
}

} // verus!
