//! From an array's length to the logarithm the plan is made for.

use vstd::prelude::*;
use vstd::arithmetic::power2::{pow2, lemma_pow2_pos, lemma_pow2_unfold, lemma_pow2_strictly_increases, lemma2_to64};
use crate::error::SortError;

verus! {

/// Whether `n` is `2^k` for some `k >= 0`.
pub open spec fn is_power_of_two(n: int) -> bool {
    exists|k: nat| n == pow2(k)
}

/// Whether a plan made for `log_len` fits an array of `len` elements: the
/// array has `2^log_len` elements, or it is empty and the plan is too.
pub open spec fn fits(log_len: u32, len: int) -> bool {
    len == pow2(log_len as nat) || (len == 0 && log_len == 0)
}

/// An odd number greater than one, doubled any number of times, is no power
/// of two.
pub proof fn lemma_odd_factor_is_no_power(odd: int, doublings: nat)
    requires
        odd > 1,
        odd % 2 == 1,
    ensures
        !is_power_of_two(odd * pow2(doublings)),
    decreases doublings,
{
    if is_power_of_two(odd * pow2(doublings)) {
        let k = choose|k: nat| odd * pow2(doublings) == pow2(k);
        lemma_pow2_pos(doublings);
        if doublings == 0 {
            lemma2_to64();
            if k > 0 {
                lemma_pow2_unfold(k);
            }
        } else {
            lemma_pow2_unfold(doublings);
            let rest = pow2((doublings - 1) as nat);
            assert(odd * (2 * rest) == 2 * (odd * rest)) by (nonlinear_arith);
            if k == 0 {
                lemma2_to64();
                lemma_pow2_pos((doublings - 1) as nat);
                assert(odd * rest >= 1) by (nonlinear_arith)
                    requires
                        odd > 1,
                        rest > 0,
                ;
            } else {
                lemma_pow2_unfold(k);
                lemma_odd_factor_is_no_power(odd, (doublings - 1) as nat);
            }
        }
    }
}

/// A length has at most one logarithm.
pub proof fn lemma_log_len_unique(a: nat, b: nat)
    requires
        pow2(a) == pow2(b),
    ensures
        a == b,
{
    if a < b {
        lemma_pow2_strictly_increases(a, b);
    }
    if b < a {
        lemma_pow2_strictly_increases(b, a);
    }
}

/// The `k` with `len == 2^k`. An array of no elements is sorted as it is and
/// gets `k == 0`, as one of a single element does. Every other length that
/// is not a power of two is refused, before anything is planned.
pub fn log_len_of(len: usize) -> (r: Result<u32, SortError>)
    ensures
        r matches Ok(k) ==> fits(k, len as int) && k < usize::BITS,
        r matches Err(e) ==> e == (SortError::NotPowerOfTwo { len }),
        r.is_ok() <==> len == 0 || is_power_of_two(len as int),
{
    if len == 0 {
        return Ok(0);
    }
    let mut rest: usize = len;
    let mut k: u32 = 0;
    proof {
        lemma2_to64();
    }
    while rest % 2 == 0
        invariant
            rest >= 1,
            len == rest * pow2(k as nat),
            k < usize::BITS,
            rest * pow2(k as nat) <= usize::MAX,
        decreases rest,
    {
        proof {
            let half = (rest / 2) as int;
            let p = pow2(k as nat) as int;
            lemma_pow2_unfold((k + 1) as nat);
            assert((2 * half) * p == half * (2 * p)) by (nonlinear_arith);
            lemma_bounded_power(half, (k + 1) as nat);
        }
        rest = rest / 2;
        k = k + 1;
    }
    if rest == 1 {
        Ok(k)
    } else {
        proof {
            lemma_odd_factor_is_no_power(rest as int, k as nat);
        }
        Err(SortError::NotPowerOfTwo { len })
    }
}

/// A product `factor * 2^k` that fits in a `usize` has `k` below the width of
/// a `usize`.
pub proof fn lemma_bounded_power(factor: int, k: nat)
    requires
        factor >= 1,
        factor * pow2(k) <= usize::MAX,
    ensures
        k < usize::BITS,
{
    if k >= usize::BITS {
        lemma2_to64();
        if k > 64 {
            lemma_pow2_strictly_increases(64, k);
        }
        if usize::BITS == 32 && k > 32 {
            lemma_pow2_strictly_increases(32, k);
        }
        let p = pow2(k) as int;
        assert(factor * p >= p) by (nonlinear_arith)
            requires
                factor >= 1,
                p >= 0,
        ;
    }
}

/// Whether `len` is a length the sort accepts: zero or a power of two.
pub fn is_sortable_len(len: usize) -> (b: bool)
    ensures
        b <==> len == 0 || is_power_of_two(len as int),
{
    log_len_of(len).is_ok()
}

} // verus!
