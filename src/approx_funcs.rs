//! Estimating the number of distinct elements from the minima of their hashes.

use vstd::prelude::*;

verus! {

/// One turn of 64-bit keys, the fixed-point unit of the estimate.
pub open spec fn unit() -> int {
    0x1_0000_0000_0000_0000
}

/// The size estimate that one minimum gives: `u64::MAX / m - 1`.
pub open spec fn size_from_min(m: u64) -> int {
    u64::MAX as int / m as int - 1
}

/// The sum of the reciprocals of the estimates, each in fixed point with 64
/// fractional bits and rounded down.
pub open spec fn recip_sum(mins: Seq<u64>) -> int
    decreases mins.len(),
{
    if mins.len() == 0 {
        0
    } else {
        recip_sum(mins.drop_last()) + unit() / size_from_min(mins.last())
    }
}

/// The harmonic mean of the estimates in that fixed point, rounded down and
/// capped at `usize::MAX`; zero when there is no minimum or when one estimate
/// is zero.
pub open spec fn harmonic_size(mins: Seq<u64>) -> int {
    if mins.len() == 0 || exists|i: int| 0 <= i < mins.len() && size_from_min(#[trigger] mins[i]) == 0 {
        0
    } else {
        let h = (mins.len() * unit()) / recip_sum(mins);
        if h > usize::MAX {
            usize::MAX as int
        } else {
            h
        }
    }
}

/// Estimates how many distinct elements gave the hash minima `mins`: the
/// harmonic mean of the size that each minimum suggests.
pub fn approx_size_harmonic(mins: &[u64]) -> (r: usize)
    requires
        forall|i: int| 0 <= i < mins@.len() ==> #[trigger] mins@[i] > 0,
    ensures
        r == harmonic_size(mins@),
{
    let n = mins.len();
    if n == 0 {
        return 0;
    }
    let mut sum: u128 = 0;
    let mut i: usize = 0;
    while i < n
        invariant
            n == mins@.len(),
            i <= n,
            forall|k: int| 0 <= k < mins@.len() ==> #[trigger] mins@[k] > 0,
            forall|k: int| 0 <= k < i ==> size_from_min(#[trigger] mins@[k]) != 0,
            sum == recip_sum(mins@.take(i as int)),
            i <= sum <= i * unit(),
        decreases n - i,
    {
        proof {
            assert(mins@.take(i + 1).drop_last() =~= mins@.take(i as int));
            assert(mins@[i as int] > 0);
            vstd::arithmetic::div_mod::lemma_div_is_ordered_by_denominator(
                u64::MAX as int,
                mins@[i as int] as int,
                u64::MAX as int,
            );
            vstd::arithmetic::div_mod::lemma_div_basics(u64::MAX as int);
        }
        let t = u64::MAX / mins[i] - 1;
        if t == 0 {
            proof {
                assert(size_from_min(mins@[i as int]) == 0);
            }
            return 0;
        }
        let term = 0x1_0000_0000_0000_0000u128 / (t as u128);
        proof {
            assert(1 <= term <= unit()) by {
                vstd::arithmetic::div_mod::lemma_div_basics_5(unit(), t as int);
                vstd::arithmetic::div_mod::lemma_div_is_ordered(t as int, unit(), t as int);
                vstd::arithmetic::div_mod::lemma_div_basics(t as int);
            }
            assert((i + 1) * unit() == i * unit() + unit()) by (nonlinear_arith);
            assert(i * unit() <= usize::MAX * unit()) by (nonlinear_arith)
                requires
                    i <= usize::MAX,
            ;
        }
        sum = sum + term;
        i = i + 1;
    }
    proof {
        assert(mins@.take(n as int) =~= mins@);
        assert(n * unit() <= usize::MAX * unit()) by (nonlinear_arith)
            requires
                n <= usize::MAX,
        ;
    }
    let h = ((n as u128) * 0x1_0000_0000_0000_0000u128) / sum;
    if h > usize::MAX as u128 {
        usize::MAX
    } else {
        h as usize
    }
}

} // verus!
