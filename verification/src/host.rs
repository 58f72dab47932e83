//! The network run on the host, on an array in host memory.
//!
//! This is what a backend is held against: it takes the dispatches of a plan
//! in their order and does to the array what each of them is specified to do.

use vstd::prelude::*;
use vstd::arithmetic::power2::{pow2, lemma_pow2_pos, lemma_pow2_strictly_increases, lemma_pow2_unfold};
use vstd::bits::lemma_usize_shl_is_mul;
use crate::error::SortError;
use crate::length::{fits, is_power_of_two, log_len_of, lemma_bounded_power, lemma_log_len_unique};
use crate::network::{exchanged, exchanged_at, dispatched, run, run_plan, lemma_partner_in_bounds};
use crate::params::StageParameters;
use crate::permutation::lemma_dispatch_geometry;
use crate::sequencer::{DispatchPlan, StageSequencer, plan_entries};
use crate::sorting::{is_ascending, same_elements, lemma_plan_sorts};

verus! {

/// `2^exponent`, where it fits.
fn power_of_two(exponent: u32) -> (power: usize)
    requires
        pow2(exponent as nat) <= usize::MAX,
    ensures
        power == pow2(exponent as nat),
{
    proof {
        lemma_bounded_power(1, exponent as nat);
        lemma_usize_shl_is_mul(1usize, exponent as usize);
    }
    1usize << (exponent as usize)
}

/// One round of compare and exchange, from the array before it to the array
/// after it.
fn exchange_round(data: &Vec<u32>, block: usize, dist: usize, Ghost(groups): Ghost<int>) -> (after: Vec<
    u32,
>)
    requires
        1 <= dist,
        1 <= block,
        2 * dist <= usize::MAX,
        data@.len() == groups * (2 * dist),
    ensures
        after@ == exchanged(data@, block as int, dist as int),
{
    let len = data.len();
    let mut after: Vec<u32> = Vec::new();
    let mut i: usize = 0;
    while i < len
        invariant
            1 <= dist,
            1 <= block,
            2 * dist <= usize::MAX,
            len == data@.len(),
            data@.len() == groups * (2 * dist),
            i <= len,
            after@.len() == i,
            forall|at: int|
                0 <= at < i ==> #[trigger] after@[at] == exchanged_at(
                    data@,
                    block as int,
                    dist as int,
                    at,
                ),
        decreases len - i,
    {
        proof {
            lemma_partner_in_bounds(i as int, dist as int, groups);
        }
        let lower = i % (2 * dist) < dist;
        let other = if lower {
            i + dist
        } else {
            i - dist
        };
        let upwards = (i / block) % 2 == 0;
        let here = data[i];
        let there = data[other];
        let small = if here <= there {
            here
        } else {
            there
        };
        let great = if here <= there {
            there
        } else {
            here
        };
        after.push(if lower == upwards {
            small
        } else {
            great
        });
        i = i + 1;
    }
    after
}

/// Does to the array what the dispatch with `params` does: every element is
/// compared with its partner and the two are put in the order of their
/// block. An array that does not have `2^log_len` elements is refused and
/// left as it is.
pub fn dispatch_on_host(data: &mut Vec<u32>, params: &StageParameters) -> (r: Result<(), SortError>)
    requires
        params.in_range(),
    ensures
        r.is_ok() <==> old(data)@.len() == pow2(params.log_len as nat),
        r.is_ok() ==> final(data)@ == dispatched(old(data)@, *params),
        r matches Err(e) ==> e == (SortError::LengthMismatch {
            log_len: params.log_len,
            len: old(data)@.len() as usize,
        }) && final(data)@ == old(data)@,
{
    let len = data.len();
    let log_len = params.log_len;
    match log_len_of(len) {
        Ok(found) => {
            if found != log_len {
                proof {
                    lemma_pow2_pos(found as nat);
                    lemma_pow2_pos(log_len as nat);
                    if len == pow2(found as nat) && len == pow2(log_len as nat) {
                        lemma_log_len_unique(found as nat, log_len as nat);
                    }
                }
                return Err(SortError::LengthMismatch { log_len, len });
            }
            proof {
                lemma_pow2_pos(log_len as nat);
            }
        },
        Err(_) => {
            return Err(SortError::LengthMismatch { log_len, len });
        },
    }
    round_for(data, params);
    Ok(())
}

/// The dispatch with `params` on an array of the length it was made for.
fn round_for(data: &mut Vec<u32>, params: &StageParameters)
    requires
        params.in_range(),
        old(data)@.len() == pow2(params.log_len as nat),
        old(data)@.len() <= usize::MAX,
    ensures
        final(data)@ == dispatched(old(data)@, *params),
        final(data)@.len() == old(data)@.len(),
{
    proof {
        lemma_dispatch_geometry(*params);
        let k = params.log_len as nat;
        let stage = (params.log_len - params.log_group_init) as nat;
        let half = (params.log_len - params.log_group_curr - 1) as nat;
        if stage < k {
            lemma_pow2_strictly_increases(stage, k);
        }
        lemma_pow2_strictly_increases(half, k);
        lemma_pow2_strictly_increases(half, half + 1);
        lemma_pow2_unfold(half + 1);
        if half + 1 < k {
            lemma_pow2_strictly_increases(half + 1, k);
        }
        lemma_pow2_pos(stage);
    }
    let block = power_of_two(params.log_len - params.log_group_init);
    let dist = power_of_two(params.log_len - params.log_group_curr - 1);
    let after = exchange_round(data, block, dist, Ghost(pow2(params.log_group_curr as nat) as int));
    *data = after;
}

/// Runs a plan on the array: every entry, in the plan's order. The array
/// must have the length the plan was made for; one that has not is refused
/// and left as it is. Afterwards the array is in ascending order and holds
/// the elements it held before.
pub fn run_on_host(data: &mut Vec<u32>, plan: &DispatchPlan) -> (r: Result<(), SortError>)
    ensures
        r.is_ok() <==> fits(plan.spec_log_len(), old(data)@.len() as int),
        r.is_ok() ==> {
            &&& final(data)@ == run_plan(old(data)@, plan.spec_log_len())
            &&& is_ascending(final(data)@)
            &&& same_elements(old(data)@, final(data)@)
        },
        r matches Err(e) ==> final(data)@ == old(data)@ && e == (if old(data)@.len() == 0
            || is_power_of_two(old(data)@.len() as int) {
            SortError::LengthMismatch {
                log_len: plan.spec_log_len(),
                len: old(data)@.len() as usize,
            }
        } else {
            SortError::NotPowerOfTwo { len: old(data)@.len() as usize }
        }),
{
    let len = data.len();
    let log_len = plan.log_len();
    match log_len_of(len) {
        Ok(found) => {
            if found != log_len {
                proof {
                    lemma_pow2_pos(found as nat);
                    lemma_pow2_pos(log_len as nat);
                    if len == pow2(found as nat) && len == pow2(log_len as nat) {
                        lemma_log_len_unique(found as nat, log_len as nat);
                    }
                }
                return Err(SortError::LengthMismatch { log_len, len });
            }
        },
        Err(e) => {
            return Err(e);
        },
    }
    if len == 0 {
        proof {
            lemma_pow2_pos(log_len as nat);
        }
        return Ok(());
    }
    let count = plan.len();
    let mut index: usize = 0;
    while index < count
        invariant
            index <= count,
            count == plan@.len(),
            plan@ == plan_entries(log_len),
            log_len == plan.spec_log_len(),
            data@.len() == pow2(log_len as nat) == len,
            data@ == run(old(data)@, plan@.take(index as int)),
        decreases count - index,
    {
        let entry = plan.get(index).unwrap();
        proof {
            assert(plan@.take(index + 1).drop_last() =~= plan@.take(index as int));
        }
        round_for(data, &entry);
        index = index + 1;
    }
    proof {
        assert(plan@.take(count as int) =~= plan@);
        lemma_plan_sorts(old(data)@, log_len);
    }
    Ok(())
}

/// Sorts the array on the host as the accelerator would: the plan for its
/// length is computed and run. An array of no elements or one is left as it
/// is. A length greater than one that is not a power of two is refused, with
/// the array untouched.
pub fn sort_on_host(data: &mut Vec<u32>) -> (r: Result<(), SortError>)
    ensures
        r.is_ok() <==> old(data)@.len() == 0 || is_power_of_two(old(data)@.len() as int),
        r.is_ok() ==> is_ascending(final(data)@) && same_elements(old(data)@, final(data)@),
        r matches Err(e) ==> final(data)@ == old(data)@ && e == (SortError::NotPowerOfTwo {
            len: old(data)@.len() as usize,
        }),
{
    match log_len_of(data.len()) {
        Ok(log_len) => {
            let plan = StageSequencer::compute(log_len);
            run_on_host(data, &plan)
        },
        Err(e) => Err(e),
    }
}

} // verus!
