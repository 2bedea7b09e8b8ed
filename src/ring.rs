//! Arithmetic on the ring of `l`-bit identifiers.

use vstd::arithmetic::div_mod::{
    lemma_add_mod_noop,
    lemma_add_mod_noop_right,
    lemma_mod_multiples_vanish,
    lemma_mod_self_0,
    lemma_small_mod,
};
use vstd::arithmetic::power2::{
    lemma2_to64,
    lemma_pow2_adds,
    lemma_pow2_pos,
    lemma_pow2_strictly_increases,
    lemma_pow2_unfold,
    pow2,
};
use vstd::prelude::*;

verus! {

/// A key on the identifier ring.
pub type RingKey = u64;

/// Number of identifiers on the ring of `l`-bit identifiers.
pub open spec fn key_space(l: nat) -> int {
    pow2(l) as int
}

/// Clockwise distance from `x` to `y` on the ring of `l`-bit identifiers.
pub open spec fn ring_dist(x: int, y: int, l: nat) -> int {
    (y - x) % key_space(l)
}

/// `x` moved by `diff` along the ring of `l`-bit identifiers.
pub open spec fn ring_add(x: int, diff: int, l: nat) -> int {
    (x + diff) % key_space(l)
}

/// The ring's size in `u64`, for the `l` that fit.
pub proof fn lemma_key_space_bounds(l: nat)
    requires
        l < 64,
    ensures
        0 < key_space(l) <= 0x8000_0000_0000_0000,
        key_space(l) * pow2((64 - l) as nat) == 0x1_0000_0000_0000_0000,
{
    lemma2_to64();
    lemma_pow2_unfold(64);
    lemma_pow2_pos(l);
    if l < 63 {
        lemma_pow2_strictly_increases(l, 63);
    }
    lemma_pow2_adds(l, (64 - l) as nat);
}

/// `2^e` as a machine integer.
pub fn pow2_u64(e: usize) -> (r: u64)
    requires
        e < 64,
    ensures
        r == pow2(e as nat),
{
    let mut r: u64 = 1;
    let mut i: usize = 0;
    proof {
        lemma2_to64();
    }
    while i < e
        invariant
            i <= e < 64,
            r == pow2(i as nat),
        decreases e - i,
    {
        proof {
            lemma_pow2_unfold((i + 1) as nat);
            lemma_key_space_bounds((i + 1) as nat);
        }
        r = r * 2;
        i = i + 1;
    }
    r
}

/// Clockwise distance from `xk` to `yk` on the ring of `l`-bit identifiers.
pub fn vdist(xk: RingKey, yk: RingKey, l: usize) -> (r: RingKey)
    requires
        l < 64,
    ensures
        r == ring_dist(xk as int, yk as int, l as nat),
        r < key_space(l as nat),
{
    let m = pow2_u64(l);
    proof {
        lemma_key_space_bounds(l as nat);
        let k = pow2((64 - l) as nat) as int;
        if yk < xk {
            lemma_mod_multiples_vanish(k, yk - xk, m as int);
            assert(m * k + (yk - xk) == yk - xk + 0x1_0000_0000_0000_0000);
        }
    }
    yk.wrapping_sub(xk) % m
}

/// `x` moved by `diff` along the ring of `l`-bit identifiers.
pub fn add_cyc(x: RingKey, diff: i64, l: usize) -> (r: RingKey)
    requires
        l < 64,
        diff > i64::MIN,
    ensures
        r == ring_add(x as int, diff as int, l as nat),
        r < key_space(l as nat),
{
    let max_key = pow2_u64(l);
    proof {
        lemma_key_space_bounds(l as nat);
    }
    let moved = if diff >= 0 {
        x.wrapping_add(diff as u64)
    } else {
        x.wrapping_sub((-diff) as u64)
    };
    proof {
        let k = pow2((64 - l) as nat) as int;
        if x + diff > u64::MAX {
            lemma_mod_multiples_vanish(k, x + diff - 0x1_0000_0000_0000_0000, max_key as int);
        } else if x + diff < 0 {
            lemma_mod_multiples_vanish(k, x + diff, max_key as int);
            assert(max_key * k + (x + diff) == x + diff + 0x1_0000_0000_0000_0000);
        }
    }
    moved % max_key
}

/// Distances in both directions between two identifiers add up to a whole
/// number of turns, and an identifier is at distance zero from itself.
pub proof fn lemma_ring_dist_opposite(x: int, y: int, l: nat)
    ensures
        (ring_dist(x, y, l) + ring_dist(y, x, l)) % key_space(l) == 0,
        ring_dist(x, x, l) == 0,
{
    lemma_pow2_pos(l);
    let m = key_space(l);
    lemma_add_mod_noop(y - x, x - y, m);
    lemma_mod_self_0(m);
    assert(0int % m == 0);
}

/// Moving an identifier forward by `2^d` and then back by `2^d` gives it back.
pub proof fn lemma_offset_round_trip(x: int, d: nat, l: nat)
    requires
        0 <= x < key_space(l),
        d < l,
    ensures
        ring_add(ring_add(x, pow2(d) as int, l), -(pow2(d) as int), l) == x,
{
    lemma_pow2_pos(l);
    let m = key_space(l);
    let p = pow2(d) as int;
    let a = (x + p) % m;
    lemma_add_mod_noop(x + p, -p, m);
    lemma_add_mod_noop_right(a, -p, m);
    lemma_small_mod(x as nat, m as nat);
    assert(x + p + -p == x);
}

} // verus!
