//! The identifiers met when walking clockwise from one ring key to another.

use crate::ring::{add_cyc, key_space, pow2_u64, ring_add, ring_dist, vdist, RingKey};
use vstd::arithmetic::power2::{lemma_pow2_strictly_increases, pow2};
use vstd::prelude::*;

verus! {

/// The stops of a clockwise walk from `x` that covers distance `d` by the
/// powers of two below `2^i` that `d` holds, the largest first.
pub open spec fn arc_steps(x: int, d: int, i: nat, l: nat) -> Seq<RingKey>
    decreases i,
{
    if i == 0 {
        Seq::empty()
    } else {
        let p = pow2((i - 1) as nat) as int;
        if (d / p) % 2 == 1 {
            let nx = ring_add(x, p, l);
            seq![nx as RingKey] + arc_steps(nx, d, (i - 1) as nat, l)
        } else {
            arc_steps(x, d, (i - 1) as nat, l)
        }
    }
}

/// The chain of identifiers from `x` to `y`: `x`, then each stop of the
/// clockwise walk that covers their distance by powers of two, the largest
/// first.
pub open spec fn id_chain(x: RingKey, y: RingKey, l: nat) -> Seq<RingKey> {
    seq![x] + arc_steps(x as int, ring_dist(x as int, y as int, l), l, l)
}

/// The identifiers from `x_id` to `y_id`, walking clockwise on the ring of
/// `l`-bit identifiers by decreasing powers of two.
pub fn ids_chain(x_id: RingKey, y_id: RingKey, l: usize) -> (r: Vec<RingKey>)
    requires
        l < 64,
    ensures
        r@ == id_chain(x_id, y_id, l as nat),
{
    let d = vdist(x_id, y_id, l);
    let mut res: Vec<RingKey> = Vec::new();
    res.push(x_id);
    let mut cur = x_id;
    let mut i: usize = l;
    proof {
        assert(res@ + arc_steps(cur as int, d as int, i as nat, l as nat) =~= id_chain(
            x_id,
            y_id,
            l as nat,
        ));
    }
    while i > 0
        invariant
            i <= l < 64,
            d == ring_dist(x_id as int, y_id as int, l as nat),
            res@ + arc_steps(cur as int, d as int, i as nat, l as nat) == id_chain(
                x_id,
                y_id,
                l as nat,
            ),
        decreases i,
    {
        i = i - 1;
        let p = pow2_u64(i);
        proof {
            if i + 1 < 63 {
                lemma_pow2_strictly_increases((i + 1) as nat, 63);
            }
            vstd::arithmetic::power2::lemma_pow2_unfold((i + 1) as nat);
            vstd::arithmetic::power2::lemma2_to64();
            vstd::arithmetic::power2::lemma_pow2_unfold(63);
            vstd::arithmetic::power2::lemma_pow2_unfold(64);
            vstd::arithmetic::power2::lemma_pow2_pos(i as nat);
        }
        if (d / p) % 2 == 1 {
            let ghost old_res = res@;
            cur = add_cyc(cur, p as i64, l);
            res.push(cur);
            proof {
                assert(res@ + arc_steps(cur as int, d as int, i as nat, l as nat) =~= old_res
                    + (seq![cur] + arc_steps(cur as int, d as int, i as nat, l as nat)));
            }
        }
    }
    proof {
        assert(res@ + arc_steps(cur as int, d as int, 0, l as nat) =~= res@);
    }
    res
}

/// `x` moved by `p` and then by `q` is `x` moved by `p + q`.
proof fn lemma_ring_add_twice(x: int, p: int, q: int, l: nat)
    ensures
        ring_add(ring_add(x, p, l), q, l) == ring_add(x, p + q, l),
{
    vstd::arithmetic::power2::lemma_pow2_pos(l);
    let m = key_space(l);
    vstd::arithmetic::div_mod::lemma_add_mod_noop(x + p, q, m);
    vstd::arithmetic::div_mod::lemma_mod_twice(x + p, m);
    vstd::arithmetic::div_mod::lemma_add_mod_noop(x + p, q, m);
    assert(((x + p) % m + q % m) % m == (x + p + q) % m);
    vstd::arithmetic::div_mod::lemma_add_mod_noop_right((x + p) % m, q, m);
}

/// The walk from `x` over the low `i` bits of `d` ends at `x` moved by
/// `d % 2^i`.
proof fn lemma_arc_end(x: int, d: int, i: nat, l: nat)
    requires
        l < 64,
        0 <= x < key_space(l),
        0 <= d,
    ensures
        (seq![x as RingKey] + arc_steps(x, d, i, l)).last() == ring_add(
            x,
            d % (pow2(i) as int),
            l,
        ),
    decreases i,
{
    vstd::arithmetic::power2::lemma_pow2_pos(l);
    vstd::arithmetic::power2::lemma_pow2_pos(i);
    crate::ring::lemma_key_space_bounds(l);
    let m = key_space(l);
    if i == 0 {
        vstd::arithmetic::power2::lemma2_to64();
        assert(d % 1 == 0);
        vstd::arithmetic::div_mod::lemma_small_mod(x as nat, m as nat);
    } else {
        let p = pow2((i - 1) as nat) as int;
        vstd::arithmetic::power2::lemma_pow2_pos((i - 1) as nat);
        vstd::arithmetic::power2::lemma_pow2_unfold(i);
        vstd::arithmetic::div_mod::lemma_mod_breakdown(d, p, 2);
        assert(pow2(i) as int == p * 2);
        assert(0 <= (d / p) % 2 < 2);
        assert(d % (pow2(i) as int) == p * ((d / p) % 2) + d % p);
        if (d / p) % 2 == 1 {
            assert(d % (pow2(i) as int) == p + d % p);
            let nx = ring_add(x, p, l);
            vstd::arithmetic::div_mod::lemma_mod_pos_bound(x + p, m);
            lemma_arc_end(nx, d, (i - 1) as nat, l);
            lemma_ring_add_twice(x, p, d % p, l);
            let rest = seq![nx as RingKey] + arc_steps(nx, d, (i - 1) as nat, l);
            assert(seq![x as RingKey] + arc_steps(x, d, i, l) =~= seq![x as RingKey] + rest);
            assert((seq![x as RingKey] + rest).last() == rest.last());
        } else {
            assert(d % (pow2(i) as int) == d % p);
            lemma_arc_end(x, d, (i - 1) as nat, l);
            assert(arc_steps(x, d, i, l) == arc_steps(x, d, (i - 1) as nat, l));
        }
    }
}

/// The chain from `x` to `y` ends at `y`.
pub proof fn lemma_id_chain_ends(x: RingKey, y: RingKey, l: nat)
    requires
        l < 64,
        x < key_space(l),
        y < key_space(l),
    ensures
        id_chain(x, y, l)[0] == x,
        id_chain(x, y, l).last() == y,
{
    vstd::arithmetic::power2::lemma_pow2_pos(l);
    let m = key_space(l);
    let d = ring_dist(x as int, y as int, l);
    lemma_arc_end(x as int, d, l, l);
    vstd::arithmetic::div_mod::lemma_mod_bound(y - x, m);
    vstd::arithmetic::div_mod::lemma_small_mod(d as nat, m as nat);
    vstd::arithmetic::div_mod::lemma_add_mod_noop_right(x as int, y - x, m);
    vstd::arithmetic::div_mod::lemma_small_mod(y as nat, m as nat);
    assert(x + (y - x) == y);
}

} // verus!
