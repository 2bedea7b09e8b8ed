//! Finger tables over a network: their targets, the gossip that fills them,
//! and the fixed point it reaches.

use crate::ids_chain::{id_chain, ids_chain};
use crate::network::{Network, NetworkView};
use crate::node_fingers::{
    absorbed,
    chains_in,
    dests_in,
    entries_le,
    entry_le,
    known,
    lemma_absorbed_dests,
    lemma_absorbed_le,
    lemma_entries_le_trans,
    lemma_known_in,
    FingersView,
    NodeFingers,
    SemiChain,
};
use crate::random::gen_in_range;
use crate::semi_routes_array::{best_route, dist64, dist_u64, lemma_best_route_min, SemiRoutesArray};
use crate::ring::{add_cyc, key_space, pow2_u64, ring_add, RingKey};
use rand::rngs::StdRng;
use vstd::arithmetic::power2::{lemma2_to64, lemma_pow2_strictly_increases, lemma_pow2_unfold, pow2};
use vstd::prelude::*;

pub use crate::network_gen::random_net_chord;

verus! {

/// `x + 2^i` and `x - 2^i` on the ring, for each `i` below `l` in turn.
pub open spec fn power_targets(x: int, l: nat) -> Seq<RingKey> {
    Seq::new(
        2 * l,
        |k: int|
            if k % 2 == 0 {
                ring_add(x, pow2((k / 2) as nat) as int, l) as RingKey
            } else {
                ring_add(x, -(pow2((k / 2) as nat) as int), l) as RingKey
            },
    )
}

/// The chains from `x` to each key of `keys`, one after the other.
pub open spec fn connector_targets(x: RingKey, keys: Seq<RingKey>, l: nat) -> Seq<RingKey>
    decreases keys.len(),
{
    if keys.len() == 0 {
        Seq::empty()
    } else {
        connector_targets(x, keys.drop_last(), l) + id_chain(x, keys.last(), l)
    }
}

/// The keys of the neighbors of node `i`, in the order of its neighbor list.
pub open spec fn neighbor_keys(net: NetworkView, i: int) -> Seq<RingKey> {
    net.adj[i].map_values(|j: usize| net.keys[j as int])
}

/// The targets of node `i` that do not depend on chance: its predecessor, the
/// power-of-two offsets, and the chains toward its neighbors.
pub open spec fn fixed_targets(net: NetworkView, i: int, l: nat) -> Seq<RingKey> {
    let x = net.keys[i];
    seq![ring_add(x as int, -1, l) as RingKey] + power_targets(x as int, l) + connector_targets(
        x,
        neighbor_keys(net, i),
        l,
    )
}

/// `r` is `l` draws, the `k`-th from `[2^k, 2^(k+1))`, then `l` draws from
/// the whole ring.
pub open spec fn random_targets_ok(r: Seq<RingKey>, l: nat) -> bool {
    &&& r.len() == 2 * l
    &&& forall|k: int| 0 <= k < l ==> pow2(k as nat) <= #[trigger] r[k] < pow2((k + 1) as nat)
    &&& forall|k: int| l <= k < 2 * l ==> #[trigger] r[k] < key_space(l)
}

/// The targets of node `i`: the fixed ones, then the random ones.
pub open spec fn node_targets_ok(targets: Seq<RingKey>, net: NetworkView, i: int, l: nat) -> bool {
    let fixed = fixed_targets(net, i, l);
    &&& fixed.len() <= targets.len()
    &&& targets.subrange(0, fixed.len() as int) == fixed
    &&& random_targets_ok(targets.subrange(fixed.len() as int, targets.len() as int), l)
}

/// The predecessor target of `x_id`.
pub fn gen_left_target_ids(x_id: RingKey, l: usize) -> (r: Vec<RingKey>)
    requires
        l < 64,
    ensures
        r@ == seq![ring_add(x_id as int, -1, l as nat) as RingKey],
{
    let mut r: Vec<RingKey> = Vec::new();
    r.push(add_cyc(x_id, -1, l));
    proof {
        assert(r@ =~= seq![ring_add(x_id as int, -1, l as nat) as RingKey]);
    }
    r
}

/// `x_id + 2^i` and `x_id - 2^i`, for each `i` below `l`.
fn gen_power_target_ids(x_id: RingKey, l: usize) -> (r: Vec<RingKey>)
    requires
        l < 64,
    ensures
        r@ == power_targets(x_id as int, l as nat),
{
    let mut r: Vec<RingKey> = Vec::new();
    let mut i: usize = 0;
    while i < l
        invariant
            i <= l < 64,
            r@.len() == 2 * i,
            forall|k: int| 0 <= k < 2 * i ==> r@[k] == power_targets(x_id as int, l as nat)[k],
        decreases l - i,
    {
        let p = pow2_u64(i);
        proof {
            lemma2_to64();
            lemma_pow2_unfold(63);
            lemma_pow2_unfold(64);
            if i < 62 {
                lemma_pow2_strictly_increases(i as nat, 62);
            }
        }
        let pow_val = p as i64;
        let ghost before = r@;
        r.push(add_cyc(x_id, pow_val, l));
        r.push(add_cyc(x_id, -pow_val, l));
        i = i + 1;
        proof {
            let pt = power_targets(x_id as int, l as nat);
            let k0 = 2 * (i - 1);
            assert(k0 % 2 == 0 && k0 / 2 == i - 1);
            assert((k0 + 1) % 2 == 1 && (k0 + 1) / 2 == i - 1);
            assert(r@[k0] == pt[k0]);
            assert(r@[k0 + 1] == pt[k0 + 1]);
            assert forall|k: int| 0 <= k < 2 * i implies r@[k] == pt[k] by {
                if k < k0 {
                    assert(r@[k] == before[k]);
                }
            }
        }
    }
    proof {
        assert(r@ =~= power_targets(x_id as int, l as nat));
    }
    r
}

/// The chains from `x_id` toward each neighbor of node `x_i`.
fn gen_connector_target_ids(x_i: usize, net: &Network, l: usize) -> (r: Vec<RingKey>)
    requires
        net@.wf(),
        x_i < net@.keys.len(),
        l < 64,
    ensures
        r@ == connector_targets(net@.keys[x_i as int], neighbor_keys(net@, x_i as int), l as nat),
{
    let x_id = net.index_to_node(x_i).unwrap();
    let nbrs = net.neighbors(x_i);
    let ghost nk = neighbor_keys(net@, x_i as int);
    let mut r: Vec<RingKey> = Vec::new();
    let mut j: usize = 0;
    while j < nbrs.len()
        invariant
            net@.wf(),
            x_i < net@.keys.len(),
            l < 64,
            x_id == net@.keys[x_i as int],
            nbrs@ == net@.adj[x_i as int],
            nk == neighbor_keys(net@, x_i as int),
            j <= nbrs.len(),
            r@ == connector_targets(x_id, nk.take(j as int), l as nat),
        decreases nbrs.len() - j,
    {
        let y_i = nbrs[j];
        let y_id = net.index_to_node(y_i).unwrap();
        let mut chain = ids_chain(x_id, y_id, l);
        r.append(&mut chain);
        j = j + 1;
        proof {
            assert(nk.take(j as int).drop_last() =~= nk.take(j - 1));
        }
    }
    proof {
        assert(nk.take(j as int) =~= nk);
    }
    r
}

/// `l` draws, the `i`-th from `[2^i, 2^(i+1))`, then `l` draws from the whole
/// ring of `l`-bit identifiers.
fn gen_random_target_ids(l: usize, rng: &mut StdRng) -> (r: Vec<RingKey>)
    requires
        l < 64,
    ensures
        random_targets_ok(r@, l as nat),
{
    let mut r: Vec<RingKey> = Vec::new();
    let mut i: usize = 0;
    proof {
        lemma2_to64();
        lemma_pow2_unfold(64);
    }
    while i < l
        invariant
            i <= l < 64,
            r@.len() == i,
            forall|k: int| 0 <= k < i ==> pow2(k as nat) <= #[trigger] r@[k] < pow2((k + 1) as nat),
        decreases l - i,
    {
        proof {
            lemma_pow2_unfold((i + 1) as nat);
            lemma_pow2_strictly_increases(i as nat, (i + 1) as nat);
            if i + 1 < 64 {
                lemma_pow2_strictly_increases((i + 1) as nat, 64);
            }
        }
        let lo = pow2_u64(i);
        let hi = pow2_u64(i + 1);
        r.push(gen_in_range(rng, lo, hi));
        i = i + 1;
    }
    let size = pow2_u64(l);
    proof {
        vstd::arithmetic::power2::lemma_pow2_pos(l as nat);
    }
    let mut j: usize = 0;
    while j < l
        invariant
            j <= l < 64,
            size == key_space(l as nat),
            size > 0,
            r@.len() == l + j,
            forall|k: int| 0 <= k < l ==> pow2(k as nat) <= #[trigger] r@[k] < pow2((k + 1) as nat),
            forall|k: int| l <= k < l + j ==> #[trigger] r@[k] < key_space(l as nat),
        decreases l - j,
    {
        r.push(gen_in_range(rng, 0, size));
        j = j + 1;
    }
    r
}

/// A table as built for node `i`, before any gossip: owned by the node, with
/// its targets, and empty.
pub open spec fn fresh_table(f: FingersView, net: NetworkView, i: int, l: nat) -> bool {
    &&& f.wf()
    &&& f.id == net.keys[i]
    &&& node_targets_ok(f.targets, net, i, l)
    &&& f.entries == Seq::new(f.targets.len(), |k: int| None::<SemiChain>)
}

/// The targets of `x_id` after its predecessor: the power-of-two offsets, the
/// chains toward its neighbors, and `2 * l` random identifiers.
pub fn gen_right_target_ids(x_id: RingKey, net: &Network, l: usize, rng: &mut StdRng) -> (r: Vec<
    RingKey,
>)
    requires
        net@.wf(),
        net@.keys.contains(x_id),
        l < 64,
    ensures
        ({
            let f = power_targets(x_id as int, l as nat) + connector_targets(
                x_id,
                neighbor_keys(net@, net@.index_of(x_id)),
                l as nat,
            );
            &&& f.len() <= r@.len()
            &&& r@.subrange(0, f.len() as int) == f
            &&& random_targets_ok(r@.subrange(f.len() as int, r@.len() as int), l as nat)
        }),
{
    let x_i = net.node_to_index(x_id).unwrap();
    proof {
        let k = choose|k: int| 0 <= k < net@.keys.len() && net@.keys[k] == x_id;
        assert(0 <= net@.index_of(x_id) < net@.keys.len() && net@.keys[net@.index_of(x_id)] == x_id);
    }
    let mut r = gen_power_target_ids(x_id, l);
    let ghost p = r@;
    let mut conn = gen_connector_target_ids(x_i, net, l);
    let ghost c = conn@;
    r.append(&mut conn);
    let mut rnd = gen_random_target_ids(l, rng);
    let ghost d = rnd@;
    r.append(&mut rnd);
    proof {
        let f = p + c;
        assert(x_i as int == net@.index_of(x_id));
        assert(r@.subrange(0, f.len() as int) =~= f);
        assert(r@.subrange(f.len() as int, r@.len() as int) =~= d);
    }
    r
}

/// A fresh table for node `x_i`.
fn create_node_fingers(x_i: usize, net: &Network, l: usize, rng: &mut StdRng) -> (r: NodeFingers)
    requires
        net@.wf(),
        x_i < net@.keys.len(),
        l < 64,
    ensures
        fresh_table(r@, net@, x_i as int, l as nat),
{
    let x_id = net.index_to_node(x_i).unwrap();
    proof {
        crate::network::lemma_index_of(net@, x_i as int);
        assert(net@.keys[x_i as int] == x_id);
    }
    let target_ids_left = gen_left_target_ids(x_id, l);
    let target_ids_right = gen_right_target_ids(x_id, net, l, rng);
    let nf = NodeFingers::new(x_id, &target_ids_left, &target_ids_right);
    proof {
        let left = target_ids_left@;
        let right = target_ids_right@;
        let fr = power_targets(x_id as int, l as nat) + connector_targets(
            x_id,
            neighbor_keys(net@, x_i as int),
            l as nat,
        );
        let fixed = fixed_targets(net@, x_i as int, l as nat);
        assert(fixed =~= left + fr);
        let t = nf@.targets;
        assert(t.subrange(0, fixed.len() as int) =~= fixed) by {
            assert(right.subrange(0, fr.len() as int) == fr);
            assert forall|k: int| 0 <= k < fixed.len() implies t[k] == fixed[k] by {
                if k >= 1 {
                    assert(t[k] == right[k - 1]);
                    assert(right.subrange(0, fr.len() as int)[k - 1] == right[k - 1]);
                }
            }
        }
        assert(t.subrange(fixed.len() as int, t.len() as int) =~= right.subrange(
            fr.len() as int,
            right.len() as int,
        ));
    }
    nf
}

/// A fresh table for every node of `net`, drawing the random targets of node
/// 0 first, then of node 1, and so on.
pub fn init_fingers(net: &Network, l: usize, rng: &mut StdRng) -> (r: Vec<NodeFingers>)
    requires
        net@.wf(),
        l < 64,
    ensures
        r@.len() == net@.keys.len(),
        forall|i: int| 0 <= i < r@.len() ==> fresh_table(#[trigger] r@[i]@, net@, i, l as nat),
{
    let mut res_fingers: Vec<NodeFingers> = Vec::new();
    let n = net.node_count();
    let mut x_i: usize = 0;
    while x_i < n
        invariant
            net@.wf(),
            l < 64,
            n == net@.keys.len(),
            x_i <= n,
            res_fingers@.len() == x_i,
            forall|i: int|
                0 <= i < x_i ==> fresh_table(#[trigger] res_fingers@[i]@, net@, i, l as nat),
        decreases n - x_i,
    {
        res_fingers.push(create_node_fingers(x_i, net, l, rng));
        x_i = x_i + 1;
    }
    res_fingers
}

/// The views of a sequence of finger tables.
pub open spec fn tables(v: Seq<NodeFingers>) -> Seq<FingersView> {
    v.map_values(|f: NodeFingers| f@)
}

/// One well-formed table per node, owned by that node, whose routes all end
/// at nodes of the network.
pub open spec fn tables_wf(net: NetworkView, t: Seq<FingersView>) -> bool {
    &&& t.len() == net.keys.len()
    &&& forall|i: int|
        0 <= i < t.len() ==> (#[trigger] t[i]).wf() && t[i].id == net.keys[i] && dests_in(
            t[i].entries,
            net.keys,
        )
}

/// Tables `new` have the owners and targets of `old`, and no entry of `new`
/// is worse than the entry of `old` for the same target.
pub open spec fn tables_le(new: Seq<FingersView>, old: Seq<FingersView>, l: nat) -> bool {
    &&& new.len() == old.len()
    &&& forall|i: int|
        0 <= i < old.len() ==> (#[trigger] new[i]).id == old[i].id && new[i].targets
            == old[i].targets && entries_le(new[i].entries, old[i].entries, old[i].targets, l)
}

/// The routes that seed node `i`: one hop to each of its neighbors.
pub open spec fn seed_chains(net: NetworkView, i: int) -> Seq<SemiChain> {
    neighbor_keys(net, i).map_values(|k: RingKey| SemiChain { final_id: k, length: 1 })
}

/// Tables `t` once each node has been offered a one-hop route to each of its
/// neighbors, in the order of its neighbor list.
pub open spec fn seeded(net: NetworkView, t: Seq<FingersView>, l: nat) -> Seq<FingersView> {
    Seq::new(
        t.len(),
        |i: int|
            FingersView {
                id: t[i].id,
                targets: t[i].targets,
                entries: absorbed(t[i].id, t[i].targets, t[i].entries, seed_chains(net, i), 0, l),
            },
    )
}

/// The exchange along route `c` of node `x` changes neither side: the node
/// that `c` ends at gains nothing from `x`'s routes taken `c`'s hops further,
/// and `x` gains nothing from that node's routes.
pub open spec fn exchange_quiet(net: NetworkView, t: Seq<FingersView>, x: int, c: SemiChain, l: nat) -> bool {
    let r = net.index_of(c.final_id);
    &&& absorbed(t[r].id, t[r].targets, t[r].entries, known(t[x].entries), c.length as int, l)
        == t[r].entries
    &&& absorbed(t[x].id, t[x].targets, t[x].entries, known(t[r].entries), c.length as int, l)
        == t[x].entries
}

/// No exchange along any route that any node holds changes any table.
pub open spec fn fixed_point(net: NetworkView, t: Seq<FingersView>, l: nat) -> bool {
    forall|x: int, j: int|
        0 <= x < t.len() && 0 <= j < known(t[x].entries).len() ==> exchange_quiet(
            net,
            t,
            x,
            #[trigger] known(t[x].entries)[j],
            l,
        )
}

/// Replacing one table by one that is no worse keeps all tables no worse
/// than `start`, and a change, once made, is not undone.
proof fn lemma_table_step(
    start: Seq<FingersView>,
    prev: Seq<FingersView>,
    i: int,
    v: FingersView,
    l: nat,
)
    requires
        tables_le(prev, start, l),
        0 <= i < prev.len(),
        v.id == prev[i].id,
        v.targets == prev[i].targets,
        entries_le(v.entries, prev[i].entries, prev[i].targets, l),
    ensures
        tables_le(prev.update(i, v), start, l),
        prev != start ==> prev.update(i, v) != start,
        v.entries != prev[i].entries ==> prev.update(i, v) != start,
        v.entries == prev[i].entries ==> prev.update(i, v) == prev,
{
    let new = prev.update(i, v);
    lemma_entries_le_trans(v.entries, prev[i].entries, start[i].entries, start[i].targets, l);
    assert forall|k: int| 0 <= k < start.len() implies (#[trigger] new[k]).id == start[k].id
        && new[k].targets == start[k].targets && entries_le(
        new[k].entries,
        start[k].entries,
        start[k].targets,
        l,
    ) by {
        assert(prev[k].id == start[k].id);
    }
    if prev != start {
        assert(!(prev =~= start));
        let k = choose|k: int| 0 <= k < start.len() && prev[k] != start[k];
        if k == i {
            assert(prev[i].entries != start[i].entries);
        }
        assert(new[k] != start[k]);
    }
    if v.entries != prev[i].entries {
        assert(new[i] != start[i]);
    }
    if v.entries == prev[i].entries {
        assert(new =~= prev);
    }
}

/// Offers every node a one-hop route to each of its neighbors.
fn seed_fingers(net: &Network, fingers: &mut Vec<NodeFingers>, l: usize)
    requires
        net@.wf(),
        tables_wf(net@, tables(old(fingers)@)),
        l < 64,
    ensures
        tables_wf(net@, tables(final(fingers)@)),
        tables(final(fingers)@) == seeded(net@, tables(old(fingers)@), l as nat),
{
    let ghost start = tables(fingers@);
    let n = net.node_count();
    let mut x_i: usize = 0;
    while x_i < n
        invariant
            net@.wf(),
            l < 64,
            n == net@.keys.len(),
            x_i <= n,
            start == tables(old(fingers)@),
            start.len() == n,
            tables_wf(net@, tables(fingers@)),
            fingers@.len() == n,
            forall|i: int| 0 <= i < x_i ==> (#[trigger] tables(fingers@)[i]) == seeded(net@, start, l as nat)[i],
            forall|i: int| x_i <= i < n ==> (#[trigger] tables(fingers@)[i]) == start[i],
        decreases n - x_i,
    {
        let nbrs = net.neighbors(x_i);
        let mut chains: Vec<SemiChain> = Vec::new();
        let mut j: usize = 0;
        while j < nbrs.len()
            invariant
                net@.wf(),
                x_i < n == net@.keys.len(),
                nbrs@ == net@.adj[x_i as int],
                j <= nbrs.len(),
                chains@ == seed_chains(net@, x_i as int).take(j as int),
            decreases nbrs.len() - j,
        {
            let neighbor_id = net.index_to_node(nbrs[j]).unwrap();
            chains.push(SemiChain { final_id: neighbor_id, length: 1 });
            j = j + 1;
            proof {
                assert(chains@ =~= seed_chains(net@, x_i as int).take(j as int));
            }
        }
        proof {
            assert(chains@ =~= seed_chains(net@, x_i as int));
            let t = tables(fingers@);
            assert(t[x_i as int] == start[x_i as int]);
            assert forall|j: int| 0 <= j < chains@.len() implies net@.keys.contains(
                (#[trigger] chains@[j]).final_id,
            ) by {
                let y = net@.adj[x_i as int][j];
                assert(net@.keys[y as int] == chains@[j].final_id);
            }
            lemma_absorbed_dests(
                start[x_i as int].id,
                start[x_i as int].targets,
                start[x_i as int].entries,
                chains@,
                0,
                l as nat,
                net@.keys,
            );
        }
        let ghost prev_f = fingers@;
        fingers[x_i].update_by_chains(&chains, 0, l);
        proof {
            let t = tables(fingers@);
            let pt = tables(prev_f);
            assert(fingers@.len() == n);
            assert forall|i: int| 0 <= i < n && i != x_i implies #[trigger] t[i] == pt[i] by {
                assert(fingers@[i] == prev_f[i]);
            }
            assert(pt[x_i as int] == start[x_i as int]);
            let sd = seeded(net@, start, l as nat)[x_i as int];
            assert(t[x_i as int] == sd);
            assert forall|i: int| 0 <= i < x_i + 1 implies (#[trigger] tables(fingers@)[i])
                == seeded(net@, start, l as nat)[i] by {
                if i < x_i {
                    assert(t[i] == pt[i]);
                }
            }
            assert forall|i: int| x_i + 1 <= i < n implies (#[trigger] tables(fingers@)[i])
                == start[i] by {
                assert(t[i] == pt[i]);
            }
            assert forall|i: int| 0 <= i < t.len() implies (#[trigger] t[i]).wf() && t[i].id
                == net@.keys[i] && dests_in(t[i].entries, net@.keys) by {
                if i != x_i {
                    assert(t[i] == pt[i]);
                }
            }
        }
        x_i = x_i + 1;
    }
    proof {
        assert(tables(fingers@) =~= seeded(net@, start, l as nat));
    }
}


/// Table `f` once it has taken in `chains`, each `extra` hops further.
pub open spec fn absorb_view(f: FingersView, chains: Seq<SemiChain>, extra: int, l: nat) -> FingersView {
    FingersView {
        id: f.id,
        targets: f.targets,
        entries: absorbed(f.id, f.targets, f.entries, chains, extra, l),
    }
}

/// The exchange along route `c` of node `x`: the node `r` that `c` ends at
/// takes in all of `x`'s routes, then `x` takes in all of `r`'s, both `c`'s
/// hop-count further.
pub open spec fn exchange(net: NetworkView, t: Seq<FingersView>, x: int, c: SemiChain, l: nat) -> Seq<
    FingersView,
> {
    let r = net.index_of(c.final_id);
    if r == x {
        t
    } else {
        let t1 = t.update(r, absorb_view(t[r], known(t[x].entries), c.length as int, l));
        t1.update(x, absorb_view(t1[x], known(t1[r].entries), c.length as int, l))
    }
}

/// The exchanges along each route of `chains` of node `x`, in order.
pub open spec fn exchanges(
    net: NetworkView,
    t: Seq<FingersView>,
    x: int,
    chains: Seq<SemiChain>,
    l: nat,
) -> Seq<FingersView>
    decreases chains.len(),
{
    if chains.len() == 0 {
        t
    } else {
        exchange(net, exchanges(net, t, x, chains.drop_last(), l), x, chains.last(), l)
    }
}

/// The first `x` nodes' turns of a sweep that began on tables `t0`: each node
/// in turn exchanges along the routes it held when the sweep began.
pub open spec fn sweep_upto(net: NetworkView, t0: Seq<FingersView>, x: nat, l: nat) -> Seq<
    FingersView,
>
    decreases x,
{
    if x == 0 {
        t0
    } else {
        exchanges(
            net,
            sweep_upto(net, t0, (x - 1) as nat, l),
            x - 1,
            known(t0[x - 1].entries),
            l,
        )
    }
}

/// One whole sweep of gossip from tables `t`.
pub open spec fn sweep(net: NetworkView, t: Seq<FingersView>, l: nat) -> Seq<FingersView> {
    sweep_upto(net, t, t.len(), l)
}

/// Tables `t` after `k` sweeps.
pub open spec fn sweeps(net: NetworkView, t: Seq<FingersView>, k: nat, l: nat) -> Seq<FingersView>
    decreases k,
{
    if k == 0 {
        t
    } else {
        sweep(net, sweeps(net, t, (k - 1) as nat, l), l)
    }
}

/// One sweep of gossip. Each node takes the routes it held when the sweep
/// began, in order; for each, the node at the route's end takes in all the
/// node's routes, and the node then takes in all of that node's routes, both
/// taken the route's hop-count further. Returns whether any table changed;
/// when none did, the tables are a fixed point of the exchange.
pub fn iter_fingers(net: &Network, fingers: &mut Vec<NodeFingers>, l: usize) -> (r: bool)
    requires
        net@.wf(),
        tables_wf(net@, tables(old(fingers)@)),
        l < 64,
    ensures
        tables_wf(net@, tables(final(fingers)@)),
        tables_le(tables(final(fingers)@), tables(old(fingers)@), l as nat),
        tables(final(fingers)@) == sweep(net@, tables(old(fingers)@), l as nat),
        r == (tables(final(fingers)@) != tables(old(fingers)@)),
        !r ==> fixed_point(net@, tables(old(fingers)@), l as nat),
{
    let ghost start = tables(fingers@);
    let n = net.node_count();
    let mut snaps: Vec<Vec<SemiChain>> = Vec::new();
    let mut i: usize = 0;
    while i < n
        invariant
            n == net@.keys.len() == fingers@.len(),
            start == tables(fingers@),
            i <= n,
            snaps@.len() == i,
            forall|k: int| 0 <= k < i ==> (#[trigger] snaps@[k])@ == known(start[k].entries),
        decreases n - i,
    {
        snaps.push(fingers[i].all_schains());
        i = i + 1;
    }
    let mut has_changed = false;
    let mut x_i: usize = 0;
    while x_i < n
        invariant
            net@.wf(),
            l < 64,
            n == net@.keys.len(),
            x_i <= n,
            start == tables(old(fingers)@),
            tables_wf(net@, start),
            snaps@.len() == n,
            forall|k: int| 0 <= k < n ==> (#[trigger] snaps@[k])@ == known(start[k].entries),
            tables_wf(net@, tables(fingers@)),
            fingers@.len() == n,
            tables_le(tables(fingers@), start, l as nat),
            tables(fingers@) == sweep_upto(net@, start, x_i as nat, l as nat),
            has_changed == (tables(fingers@) != start),
            !has_changed ==> forall|x: int, j: int|
                0 <= x < x_i && 0 <= j < known(start[x].entries).len() ==> exchange_quiet(
                    net@,
                    start,
                    x,
                    #[trigger] known(start[x].entries)[j],
                    l as nat,
                ),
        decreases n - x_i,
    {
        let snap = &snaps[x_i];
        proof {
            lemma_known_in(start[x_i as int].entries, net@.keys);
        }
        let mut j: usize = 0;
        while j < snap.len()
            invariant
                net@.wf(),
                l < 64,
                n == net@.keys.len(),
                x_i < n,
                start == tables(old(fingers)@),
                tables_wf(net@, start),
                snap@ == known(start[x_i as int].entries),
                chains_in(snap@, net@.keys),
                j <= snap.len(),
                tables_wf(net@, tables(fingers@)),
                fingers@.len() == n,
                tables_le(tables(fingers@), start, l as nat),
                tables(fingers@) == exchanges(
                    net@,
                    sweep_upto(net@, start, x_i as nat, l as nat),
                    x_i as int,
                    snap@.take(j as int),
                    l as nat,
                ),
                has_changed == (tables(fingers@) != start),
                !has_changed ==> forall|jj: int|
                    0 <= jj < j ==> exchange_quiet(net@, start, x_i as int, #[trigger] snap@[jj], l as nat),
                !has_changed ==> forall|x: int, j: int|
                    0 <= x < x_i && 0 <= j < known(start[x].entries).len() ==> exchange_quiet(
                        net@,
                        start,
                        x,
                        #[trigger] known(start[x].entries)[j],
                        l as nat,
                    ),
            decreases snap.len() - j,
        {
            let c = snap[j];
            proof {
                assert(net@.keys.contains(snap@[j as int].final_id));
            }
            let remote_i = net.node_to_index(c.final_id).unwrap();
            proof {
                assert(exists|k: int| 0 <= k < net@.keys.len() && net@.keys[k] == c.final_id);
                assert(net@.keys[remote_i as int] == c.final_id);
                crate::node_fingers::lemma_known_from_entries(start[x_i as int].entries);
                let k = choose|k: int|
                    0 <= k < start[x_i as int].entries.len() && start[x_i as int].entries[k]
                        == Some(known(start[x_i as int].entries)[j as int]);
                assert(start[x_i as int].entries[k] is Some);
                assert(c.final_id != start[x_i as int].id);
            }
            let ghost t0 = tables(fingers@);
            let ghost f0 = fingers@;
            let xs = fingers[x_i].all_schains();
            proof {
                assert(t0[x_i as int] == f0[x_i as int]@);
                lemma_known_in(t0[x_i as int].entries, net@.keys);
                lemma_absorbed_dests(
                    t0[remote_i as int].id,
                    t0[remote_i as int].targets,
                    t0[remote_i as int].entries,
                    xs@,
                    c.length as int,
                    l as nat,
                    net@.keys,
                );
                lemma_absorbed_le(
                    t0[remote_i as int].id,
                    t0[remote_i as int].targets,
                    t0[remote_i as int].entries,
                    xs@,
                    c.length as int,
                    l as nat,
                );
            }
            let ch1 = fingers[remote_i].update_by_chains(&xs, c.length, l);
            let ghost t1 = tables(fingers@);
            let ghost f1 = fingers@;
            proof {
                assert(t1 =~= t0.update(remote_i as int, f1[remote_i as int]@));
                lemma_table_step(start, t0, remote_i as int, f1[remote_i as int]@, l as nat);
                assert forall|i: int| 0 <= i < t1.len() implies (#[trigger] t1[i]).wf() && t1[i].id
                    == net@.keys[i] && dests_in(t1[i].entries, net@.keys) by {
                    if i != remote_i {
                        assert(t1[i] == t0[i]);
                    }
                }
            }
            let rs = fingers[remote_i].all_schains();
            proof {
                assert(t1[remote_i as int] == f1[remote_i as int]@);
                lemma_known_in(t1[remote_i as int].entries, net@.keys);
                lemma_absorbed_dests(
                    t1[x_i as int].id,
                    t1[x_i as int].targets,
                    t1[x_i as int].entries,
                    rs@,
                    c.length as int,
                    l as nat,
                    net@.keys,
                );
                lemma_absorbed_le(
                    t1[x_i as int].id,
                    t1[x_i as int].targets,
                    t1[x_i as int].entries,
                    rs@,
                    c.length as int,
                    l as nat,
                );
            }
            let ch2 = fingers[x_i].update_by_chains(&rs, c.length, l);
            let ghost t2 = tables(fingers@);
            let ghost f2 = fingers@;
            proof {
                assert(t2 =~= t1.update(x_i as int, f2[x_i as int]@));
                lemma_table_step(start, t1, x_i as int, f2[x_i as int]@, l as nat);
                assert forall|i: int| 0 <= i < t2.len() implies (#[trigger] t2[i]).wf() && t2[i].id
                    == net@.keys[i] && dests_in(t2[i].entries, net@.keys) by {
                    if i != x_i {
                        assert(t2[i] == t1[i]);
                    }
                }
                if !has_changed && !ch1 && !ch2 {
                    assert(t0 == start);
                    assert(t1 == t0);
                    assert(t2 == t1);
                    assert(remote_i as int == net@.index_of(c.final_id));
                    assert(exchange_quiet(net@, start, x_i as int, c, l as nat));
                }
            }
            proof {
                assert(snap@.take(j + 1).drop_last() =~= snap@.take(j as int));
                assert(t2 == exchange(net@, t0, x_i as int, c, l as nat));
            }
            has_changed = has_changed || ch1 || ch2;
            j = j + 1;
            proof {
                if !has_changed {
                    assert forall|jj: int| 0 <= jj < j implies exchange_quiet(
                        net@,
                        start,
                        x_i as int,
                        #[trigger] snap@[jj],
                        l as nat,
                    ) by {
                        if jj < j - 1 {
                        } else {
                            assert(snap@[jj] == c);
                        }
                    }
                }
            }
        }
        proof {
            assert(snap@.take(snap@.len() as int) =~= snap@);
            if !has_changed {
                assert forall|x: int, jj: int|
                    0 <= x < x_i + 1 && 0 <= jj < known(start[x].entries).len() implies exchange_quiet(
                    net@,
                    start,
                    x,
                    #[trigger] known(start[x].entries)[jj],
                    l as nat,
                ) by {
                    if x == x_i {
                        assert(known(start[x].entries)[jj] == snap@[jj]);
                    }
                }
            }
        }
        x_i = x_i + 1;
    }
    has_changed
}

/// Seeds every table with one-hop routes to the node's neighbors, then runs
/// sweeps of gossip until one changes nothing, at most `max_sweeps` of them.
/// Returns the number of sweeps run, the last one quiet, or `None` when every
/// allowed sweep still changed a table; the tables are then usable but not
/// final.
pub fn converge_fingers(net: &Network, fingers: &mut Vec<NodeFingers>, l: usize, max_sweeps: usize) -> (r:
    Option<usize>)
    requires
        net@.wf(),
        tables_wf(net@, tables(old(fingers)@)),
        l < 64,
    ensures
        tables_wf(net@, tables(final(fingers)@)),
        tables_le(tables(final(fingers)@), seeded(net@, tables(old(fingers)@), l as nat), l as nat),
        ({
            let s0 = seeded(net@, tables(old(fingers)@), l as nat);
            match r {
                Some(s) => {
                    &&& 1 <= s <= max_sweeps
                    &&& tables(final(fingers)@) == sweeps(net@, s0, (s - 1) as nat, l as nat)
                    &&& sweep(net@, tables(final(fingers)@), l as nat) == tables(final(fingers)@)
                    &&& forall|k: nat|
                        k + 1 < s ==> #[trigger] sweeps(net@, s0, k + 1, l as nat) != sweeps(
                            net@,
                            s0,
                            k,
                            l as nat,
                        )
                },
                None => {
                    &&& tables(final(fingers)@) == sweeps(net@, s0, max_sweeps as nat, l as nat)
                    &&& forall|k: nat|
                        k < max_sweeps ==> #[trigger] sweeps(net@, s0, k + 1, l as nat) != sweeps(
                            net@,
                            s0,
                            k,
                            l as nat,
                        )
                },
            }
        }),
        r is Some ==> fixed_point(net@, tables(final(fingers)@), l as nat),
{
    seed_fingers(net, fingers, l);
    let ghost seeded_t = tables(fingers@);
    let mut count: usize = 0;
    while count < max_sweeps
        invariant
            net@.wf(),
            l < 64,
            count <= max_sweeps,
            tables_wf(net@, tables(fingers@)),
            tables_wf(net@, seeded_t),
            seeded_t == seeded(net@, tables(old(fingers)@), l as nat),
            tables_le(tables(fingers@), seeded_t, l as nat),
            tables(fingers@) == sweeps(net@, seeded_t, count as nat, l as nat),
            forall|k: nat|
                k < count ==> #[trigger] sweeps(net@, seeded_t, k + 1, l as nat) != sweeps(
                    net@,
                    seeded_t,
                    k,
                    l as nat,
                ),
        decreases max_sweeps - count,
    {
        let ghost before = tables(fingers@);
        let changed = iter_fingers(net, fingers, l);
        proof {
            lemma_tables_le_trans(tables(fingers@), before, seeded_t, l as nat);
            assert(sweeps(net@, seeded_t, (count + 1) as nat, l as nat) == sweep(
                net@,
                before,
                l as nat,
            ));
        }
        if !changed {
            return Some(count + 1);
        }
        count = count + 1;
    }
    None
}

/// Being no worse, table by table, is transitive.
pub proof fn lemma_tables_le_trans(
    newer: Seq<FingersView>,
    new: Seq<FingersView>,
    old: Seq<FingersView>,
    l: nat,
)
    requires
        tables_le(newer, new, l),
        tables_le(new, old, l),
    ensures
        tables_le(newer, old, l),
{
    assert forall|i: int| 0 <= i < old.len() implies (#[trigger] newer[i]).id == old[i].id
        && newer[i].targets == old[i].targets && entries_le(
        newer[i].entries,
        old[i].entries,
        old[i].targets,
        l,
    ) by {
        assert(new[i].id == old[i].id);
        lemma_entries_le_trans(newer[i].entries, new[i].entries, old[i].entries, old[i].targets, l);
    }
}

/// Seeding is symmetric along an edge: where node `u`'s only neighbor is `v`
/// and `v`'s only neighbor is `u`, fresh tables once seeded hold a one-hop
/// route from `u` to `v` and one from `v` to `u`.
pub proof fn lemma_seed_single_edge(net: NetworkView, fresh: Seq<FingersView>, u: int, v: int, l: nat)
    requires
        net.wf(),
        fresh.len() == net.keys.len(),
        forall|i: int| 0 <= i < fresh.len() ==> fresh_table(#[trigger] fresh[i], net, i, l),
        0 <= u < net.keys.len(),
        0 <= v < net.keys.len(),
        net.adj[u] == seq![v as usize],
        net.adj[v] == seq![u as usize],
    ensures
        known(seeded(net, fresh, l)[u].entries).contains(
            SemiChain { final_id: net.keys[v], length: 1 },
        ),
        known(seeded(net, fresh, l)[v].entries).contains(
            SemiChain { final_id: net.keys[u], length: 1 },
        ),
{
    lemma_seed_one(net, fresh, u, v, l);
    lemma_seed_one(net, fresh, v, u, l);
}

/// One side of `lemma_seed_single_edge`.
proof fn lemma_seed_one(net: NetworkView, fresh: Seq<FingersView>, u: int, v: int, l: nat)
    requires
        net.wf(),
        fresh.len() == net.keys.len(),
        forall|i: int| 0 <= i < fresh.len() ==> fresh_table(#[trigger] fresh[i], net, i, l),
        0 <= u < net.keys.len(),
        0 <= v < net.keys.len(),
        net.adj[u] == seq![v as usize],
    ensures
        known(seeded(net, fresh, l)[u].entries).contains(
            SemiChain { final_id: net.keys[v], length: 1 },
        ),
{
    let f = fresh[u];
    assert(fresh_table(f, net, u, l));
    let c = SemiChain { final_id: net.keys[v], length: 1 };
    let chains = seed_chains(net, u);
    assert(chains =~= seq![c]);
    assert(u != v);
    assert(c.final_id != f.id);
    assert(chains.drop_last() =~= Seq::<SemiChain>::empty());
    let e = absorbed(f.id, f.targets, f.entries, chains, 0, l);
    assert(absorbed(f.id, f.targets, f.entries, chains.drop_last(), 0, l) == f.entries);
    assert(chains.last() == c);
    assert(SemiChain { final_id: c.final_id, length: (c.length + 0) as usize } == c);
    assert(e == crate::node_fingers::offered(f.id, f.targets, f.entries, c, l));
    let fixed = fixed_targets(net, u, l);
    assert(fixed.len() >= 1);
    assert(f.targets.len() >= 1);
    assert(e.len() == f.targets.len());
    assert(e[e.len() - 1] == Some(c));
    let k = known(e);
    assert(k == known(e.drop_last()).push(c));
    assert(k[k.len() - 1] == c);
    assert(seeded(net, fresh, l)[u].entries == e);
}

/// Route `c` continued by each route of `nexts`: the end of the continuation,
/// with the hops of both. A sum that would not fit in `usize` is passed over.
pub open spec fn extend_routes(c: SemiChain, nexts: Seq<SemiChain>) -> Seq<SemiChain>
    decreases nexts.len(),
{
    if nexts.len() == 0 {
        Seq::empty()
    } else {
        let prev = extend_routes(c, nexts.drop_last());
        let n = nexts.last();
        if c.length + n.length > usize::MAX {
            prev
        } else {
            prev.push(SemiChain { final_id: n.final_id, length: (c.length + n.length) as usize })
        }
    }
}

/// For each route of `chains` in turn: the route itself, then the route
/// continued by each route held by the node it ends at.
pub open spec fn routes_of(net: NetworkView, t: Seq<FingersView>, chains: Seq<SemiChain>) -> Seq<
    SemiChain,
>
    decreases chains.len(),
{
    if chains.len() == 0 {
        Seq::empty()
    } else {
        let c = chains.last();
        routes_of(net, t, chains.drop_last()) + seq![c] + extend_routes(
            c,
            known(t[net.index_of(c.final_id)].entries),
        )
    }
}

/// The route index of node `x`: its own routes and their continuations by
/// the routes of the nodes they end at.
pub open spec fn node_routes(net: NetworkView, t: Seq<FingersView>, x: int) -> Seq<SemiChain> {
    routes_of(net, t, known(t[x].entries))
}

/// Continuations end where the continuing routes do.
proof fn lemma_extend_in(c: SemiChain, nexts: Seq<SemiChain>, keys: Seq<RingKey>)
    requires
        chains_in(nexts, keys),
    ensures
        chains_in(extend_routes(c, nexts), keys),
    decreases nexts.len(),
{
    if nexts.len() > 0 {
        let init = nexts.drop_last();
        assert forall|j: int| 0 <= j < init.len() implies keys.contains(
            (#[trigger] init[j]).final_id,
        ) by {
            assert(init[j] == nexts[j]);
        }
        lemma_extend_in(c, init, keys);
        assert(keys.contains(nexts[nexts.len() - 1].final_id));
    }
}

/// Builds the route index of node `x_i`.
fn create_semi_routes_node(x_i: usize, net: &Network, fingers: &Vec<NodeFingers>) -> (r:
    SemiRoutesArray)
    requires
        net@.wf(),
        tables_wf(net@, tables(fingers@)),
        x_i < net@.keys.len(),
    ensures
        r@ == node_routes(net@, tables(fingers@), x_i as int),
{
    let ghost t = tables(fingers@);
    let mut semi_routes_array = SemiRoutesArray::new();
    let own = fingers[x_i].all_schains();
    proof {
        assert(t[x_i as int] == fingers@[x_i as int]@);
        lemma_known_in(t[x_i as int].entries, net@.keys);
    }
    let mut i: usize = 0;
    while i < own.len()
        invariant
            net@.wf(),
            t == tables(fingers@),
            tables_wf(net@, t),
            own@ == known(t[x_i as int].entries),
            chains_in(own@, net@.keys),
            i <= own.len(),
            semi_routes_array@ == routes_of(net@, t, own@.take(i as int)),
        decreases own.len() - i,
    {
        let schain = own[i];
        proof {
            assert(own@.take(i + 1).drop_last() =~= own@.take(i as int));
            assert(net@.keys.contains(own@[i as int].final_id));
        }
        let ghost before = semi_routes_array@;
        semi_routes_array.insert_sroute(schain);
        let target_i = net.node_to_index(schain.final_id).unwrap();
        let nexts = fingers[target_i].all_schains();
        proof {
            assert(t[target_i as int] == fingers@[target_i as int]@);
        }
        let mut j: usize = 0;
        while j < nexts.len()
            invariant
                j <= nexts.len(),
                semi_routes_array@ == before + seq![schain] + extend_routes(
                    schain,
                    nexts@.take(j as int),
                ),
            decreases nexts.len() - j,
        {
            proof {
                assert(nexts@.take(j + 1).drop_last() =~= nexts@.take(j as int));
            }
            let next_schain = nexts[j];
            match schain.length.checked_add(next_schain.length) {
                Some(length) => {
                    semi_routes_array.insert_sroute(
                        SemiChain { final_id: next_schain.final_id, length },
                    );
                },
                None => {},
            }
            j = j + 1;
            proof {
                assert(semi_routes_array@ =~= before + seq![schain] + extend_routes(
                    schain,
                    nexts@.take(j as int),
                ));
            }
        }
        proof {
            assert(nexts@.take(j as int) =~= nexts@);
            assert(own@.take(i + 1).last() == schain);
        }
        i = i + 1;
    }
    proof {
        assert(own@.take(i as int) =~= own@);
    }
    semi_routes_array
}

/// The route index of every node.
pub fn create_semi_routes(net: &Network, fingers: &Vec<NodeFingers>) -> (r: Vec<SemiRoutesArray>)
    requires
        net@.wf(),
        tables_wf(net@, tables(fingers@)),
    ensures
        r@.len() == net@.keys.len(),
        forall|i: int|
            0 <= i < r@.len() ==> (#[trigger] r@[i])@ == node_routes(net@, tables(fingers@), i),
        forall|i: int| 0 <= i < r@.len() ==> chains_in(#[trigger] r@[i]@, net@.keys),
{
    let mut res_vec: Vec<SemiRoutesArray> = Vec::new();
    let n = net.node_count();
    let mut x_i: usize = 0;
    while x_i < n
        invariant
            net@.wf(),
            tables_wf(net@, tables(fingers@)),
            n == net@.keys.len(),
            x_i <= n,
            res_vec@.len() == x_i,
            forall|i: int|
                0 <= i < x_i ==> (#[trigger] res_vec@[i])@ == node_routes(
                    net@,
                    tables(fingers@),
                    i,
                ),
            forall|i: int| 0 <= i < x_i ==> chains_in(#[trigger] res_vec@[i]@, net@.keys),
        decreases n - x_i,
    {
        proof {
            let t = tables(fingers@);
            lemma_known_in(t[x_i as int].entries, net@.keys);
            lemma_routes_in(net@, t, known(t[x_i as int].entries));
        }
        res_vec.push(create_semi_routes_node(x_i, net, fingers));
        x_i = x_i + 1;
    }
    res_vec
}

/// Every route of a node's index ends at a node of the network.
proof fn lemma_routes_in(net: NetworkView, t: Seq<FingersView>, chains: Seq<SemiChain>)
    requires
        net.wf(),
        tables_wf(net, t),
        chains_in(chains, net.keys),
    ensures
        chains_in(routes_of(net, t, chains), net.keys),
    decreases chains.len(),
{
    if chains.len() > 0 {
        let init = chains.drop_last();
        let c = chains.last();
        assert forall|j: int| 0 <= j < init.len() implies net.keys.contains(
            (#[trigger] init[j]).final_id,
        ) by {
            assert(init[j] == chains[j]);
        }
        lemma_routes_in(net, t, init);
        assert(net.keys.contains(chains[chains.len() - 1].final_id));
        assert(exists|k: int| 0 <= k < net.keys.len() && net.keys[k] == c.final_id);
        let r = net.index_of(c.final_id);
        assert(0 <= r < t.len());
        lemma_known_in(t[r].entries, net.keys);
        lemma_extend_in(c, known(t[r].entries), net.keys);
        let all = routes_of(net, t, chains);
        let a = routes_of(net, t, init);
        let e = extend_routes(c, known(t[r].entries));
        assert(all == a + seq![c] + e);
        assert forall|j: int| 0 <= j < all.len() implies net.keys.contains(
            (#[trigger] all[j]).final_id,
        ) by {
            if j < a.len() {
                assert(all[j] == a[j]);
            } else if j == a.len() {
                assert(all[j] == c);
            } else {
                assert(all[j] == e[j - a.len() - 1]);
            }
        }
    }
}

/// The route indices of a sequence of nodes.
pub open spec fn indices(v: Seq<SemiRoutesArray>) -> Seq<Seq<SemiChain>> {
    v.map_values(|a: SemiRoutesArray| a@)
}

/// Greedy forwarding from `cur` toward `dst`, `acc` hops already taken: at
/// each node, step along the best route of its index toward `dst`; fail when
/// there is none, when it comes no closer to `dst`, or when the hop total
/// would not fit in `usize`.
pub open spec fn walk(
    net: NetworkView,
    rt: Seq<Seq<SemiChain>>,
    cur: RingKey,
    dst: RingKey,
    acc: usize,
) -> Option<usize>
    decreases dist64(cur, dst),
{
    if cur == dst {
        Some(acc)
    } else {
        match best_route(rt[net.index_of(cur)], dst) {
            None => None,
            Some(e) => if dist64(e.final_id, dst) >= dist64(cur, dst) || acc + e.length
                > usize::MAX {
                None
            } else {
                walk(net, rt, e.final_id, dst, (acc + e.length) as usize)
            },
        }
    }
}

/// Routes greedily from the node with key `src_id` toward `dst_id`, using
/// only the route index of the node reached at each step. Returns the total
/// hop-count on arrival, or `None` when some node has no route that brings
/// the message closer.
pub fn find_path(
    src_id: RingKey,
    dst_id: RingKey,
    net: &Network,
    semi_routes: &Vec<SemiRoutesArray>,
) -> (r: Option<usize>)
    requires
        net@.wf(),
        semi_routes@.len() == net@.keys.len(),
        forall|i: int| 0 <= i < semi_routes@.len() ==> chains_in(#[trigger] semi_routes@[i]@, net@.keys),
        net@.keys.contains(src_id),
    ensures
        r == walk(net@, indices(semi_routes@), src_id, dst_id, 0),
{
    let ghost rt = indices(semi_routes@);
    let mut cur = src_id;
    let mut length: usize = 0;
    while cur != dst_id
        invariant
            net@.wf(),
            semi_routes@.len() == net@.keys.len(),
            forall|i: int| 0 <= i < semi_routes@.len() ==> chains_in(#[trigger] semi_routes@[i]@, net@.keys),
            rt == indices(semi_routes@),
            net@.keys.contains(cur),
            walk(net@, rt, src_id, dst_id, 0) == walk(net@, rt, cur, dst_id, length),
        decreases dist64(cur, dst_id),
    {
        let cur_i = net.node_to_index(cur).unwrap();
        let cur_semi_routes = &semi_routes[cur_i];
        let found = cur_semi_routes.find_closest_left(dst_id);
        proof {
            assert(rt[cur_i as int] == cur_semi_routes@);
            lemma_best_route_min(cur_semi_routes@, dst_id);
        }
        match found {
            None => {
                return None;
            },
            Some(e) => {
                if dist_u64(e.final_id, dst_id) >= dist_u64(cur, dst_id) {
                    return None;
                }
                match length.checked_add(e.length) {
                    None => {
                        return None;
                    },
                    Some(total) => {
                        proof {
                            let k = choose|k: int|
                                0 <= k < cur_semi_routes@.len() && cur_semi_routes@[k] == e;
                            assert(net@.keys.contains(cur_semi_routes@[k].final_id));
                        }
                        length = total;
                        cur = e.final_id;
                    },
                }
            },
        }
    }
    Some(length)
}

/// A chain of node keys, in the order they are visited.
pub type NodeChain = Vec<RingKey>;

/// `chain` extended by `id`; where `id` already stands in it, the chain is
/// cut just after its first occurrence instead, so that no cycle forms.
pub open spec fn chain_with(chain: Seq<RingKey>, id: RingKey) -> Seq<RingKey> {
    if chain.contains(id) {
        let p = choose|p: int| 0 <= p < chain.len() && chain[p] == id && forall|q: int|
            0 <= q < p ==> chain[q] != id;
        chain.take(p + 1)
    } else {
        chain.push(id)
    }
}

/// Adds `id` to the end of `chain`, cutting off the cycle that this would
/// close when `id` is already on it.
pub fn add_id_to_chain(chain: &mut NodeChain, id: RingKey)
    ensures
        final(chain)@ == chain_with(old(chain)@, id),
{
    let mut i: usize = 0;
    while i < chain.len()
        invariant
            i <= chain.len(),
            chain@ == old(chain)@,
            forall|q: int| 0 <= q < i ==> chain@[q] != id,
        decreases chain.len() - i,
    {
        if chain[i] == id {
            proof {
                let s = old(chain)@;
                assert(s.contains(id));
                let p = choose|p: int| 0 <= p < s.len() && s[p] == id && forall|q: int|
                    0 <= q < p ==> s[q] != id;
                assert(p == i) by {
                    if p < i {
                        assert(s[p] != id);
                    }
                    if p > i {
                        assert(s[i as int] != id);
                    }
                }
            }
            chain.truncate(i + 1);
            proof {
                assert(chain@ =~= old(chain)@.take(i + 1));
            }
            return;
        }
        i = i + 1;
    }
    proof {
        assert(!old(chain)@.contains(id));
    }
    chain.push(id);
}

/// Whether each two consecutive keys of `chain` belong to nodes joined by an
/// edge.
pub open spec fn chain_connected(net: NetworkView, chain: Seq<RingKey>) -> bool {
    forall|i: int|
        0 <= i < chain.len() - 1 ==> #[trigger] net.adj[net.index_of(chain[i])].contains(
            net.index_of(chain[i + 1]) as usize,
        )
}

/// Checks that the keys of `chain` are visited along edges of `net`.
pub fn verify_chain(chain: &NodeChain, net: &Network) -> (r: bool)
    requires
        net@.wf(),
        forall|i: int| 0 <= i < chain@.len() ==> net@.keys.contains(#[trigger] chain@[i]),
    ensures
        r == chain_connected(net@, chain@),
{
    if chain.len() == 0 {
        return true;
    }
    let mut i: usize = 0;
    while i < chain.len() - 1
        invariant
            net@.wf(),
            chain@.len() >= 1,
            forall|i: int| 0 <= i < chain@.len() ==> net@.keys.contains(#[trigger] chain@[i]),
            i <= chain.len() - 1,
            forall|j: int|
                0 <= j < i ==> #[trigger] net@.adj[net@.index_of(chain@[j])].contains(
                    net@.index_of(chain@[j + 1]) as usize,
                ),
        decreases chain.len() - 1 - i,
    {
        proof {
            assert(net@.keys.contains(chain@[i as int]));
            assert(net@.keys.contains(chain@[i + 1]));
        }
        let a = net.node_to_index(chain[i]).unwrap();
        let b = net.node_to_index(chain[i + 1]).unwrap();
        if !net.contains_edge(a, b) {
            return false;
        }
        i = i + 1;
    }
    true
}

/// No entry of any table leads back to the node that owns the table.
pub proof fn lemma_no_self_route(net: NetworkView, t: Seq<FingersView>, i: int, k: int)
    requires
        tables_wf(net, t),
        0 <= i < t.len(),
        0 <= k < t[i].entries.len(),
        t[i].entries[k] is Some,
    ensures
        t[i].entries[k]->0.final_id != net.keys[i],
{
    assert(t[i].wf());
}

/// Tables are no worse than themselves.
proof fn lemma_tables_le_refl(t: Seq<FingersView>, l: nat)
    ensures
        tables_le(t, t, l),
{
    assert forall|i: int| 0 <= i < t.len() implies (#[trigger] t[i]).id == t[i].id && t[i].targets
        == t[i].targets && entries_le(t[i].entries, t[i].entries, t[i].targets, l) by {
        assert forall|k: int| 0 <= k < t[i].entries.len() implies #[trigger] entry_le(
            t[i].entries[k],
            t[i].entries[k],
            t[i].targets[k] as int,
            l,
        ) by {}
    }
}

/// Table `i` taking in routes that end at nodes of the network keeps the
/// tables well formed and no worse than `start`.
proof fn lemma_absorb_step(
    net: NetworkView,
    start: Seq<FingersView>,
    t: Seq<FingersView>,
    i: int,
    chains: Seq<SemiChain>,
    extra: int,
    l: nat,
)
    requires
        tables_wf(net, t),
        tables_le(t, start, l),
        0 <= i < t.len(),
        chains_in(chains, net.keys),
    ensures
        tables_wf(net, t.update(i, absorb_view(t[i], chains, extra, l))),
        tables_le(t.update(i, absorb_view(t[i], chains, extra, l)), start, l),
{
    let f = t[i];
    let v = absorb_view(f, chains, extra, l);
    lemma_absorbed_dests(f.id, f.targets, f.entries, chains, extra, l, net.keys);
    lemma_absorbed_le(f.id, f.targets, f.entries, chains, extra, l);
    crate::node_fingers::lemma_absorbed_wf(f.id, f.targets, f.entries, chains, extra, l);
    assert(FingersView { id: f.id, targets: f.targets, entries: f.entries } == f);
    lemma_table_step(start, t, i, v, l);
    let u = t.update(i, v);
    assert forall|j: int| 0 <= j < u.len() implies (#[trigger] u[j]).wf() && u[j].id == net.keys[j]
        && dests_in(u[j].entries, net.keys) by {
        if j != i {
            assert(u[j] == t[j]);
        }
    }
}

/// One exchange keeps the tables well formed and makes none worse.
proof fn lemma_exchange_le(
    net: NetworkView,
    start: Seq<FingersView>,
    t: Seq<FingersView>,
    x: int,
    c: SemiChain,
    l: nat,
)
    requires
        net.wf(),
        tables_wf(net, t),
        tables_le(t, start, l),
        0 <= x < t.len(),
        net.keys.contains(c.final_id),
    ensures
        tables_wf(net, exchange(net, t, x, c, l)),
        tables_le(exchange(net, t, x, c, l), start, l),
{
    let r = net.index_of(c.final_id);
    assert(exists|k: int| 0 <= k < net.keys.len() && net.keys[k] == c.final_id);
    assert(0 <= r < t.len());
    if r != x {
        lemma_known_in(t[x].entries, net.keys);
        lemma_absorb_step(net, start, t, r, known(t[x].entries), c.length as int, l);
        let t1 = t.update(r, absorb_view(t[r], known(t[x].entries), c.length as int, l));
        lemma_known_in(t1[r].entries, net.keys);
        lemma_absorb_step(net, start, t1, x, known(t1[r].entries), c.length as int, l);
    }
}

/// Exchanges along routes that end at nodes of the network keep the tables
/// well formed and make none worse.
proof fn lemma_exchanges_le(
    net: NetworkView,
    start: Seq<FingersView>,
    t: Seq<FingersView>,
    x: int,
    chains: Seq<SemiChain>,
    l: nat,
)
    requires
        net.wf(),
        tables_wf(net, t),
        tables_le(t, start, l),
        0 <= x < t.len(),
        chains_in(chains, net.keys),
    ensures
        tables_wf(net, exchanges(net, t, x, chains, l)),
        tables_le(exchanges(net, t, x, chains, l), start, l),
    decreases chains.len(),
{
    if chains.len() > 0 {
        let init = chains.drop_last();
        assert forall|j: int| 0 <= j < init.len() implies net.keys.contains(
            (#[trigger] init[j]).final_id,
        ) by {
            assert(init[j] == chains[j]);
        }
        lemma_exchanges_le(net, start, t, x, init, l);
        assert(net.keys.contains(chains[chains.len() - 1].final_id));
        lemma_exchange_le(net, start, exchanges(net, t, x, init, l), x, chains.last(), l);
    }
}

/// The first `x` turns of a sweep keep the tables well formed and make none
/// worse.
proof fn lemma_sweep_upto_le(net: NetworkView, t0: Seq<FingersView>, x: nat, l: nat)
    requires
        net.wf(),
        tables_wf(net, t0),
        x <= t0.len(),
    ensures
        tables_wf(net, sweep_upto(net, t0, x, l)),
        tables_le(sweep_upto(net, t0, x, l), t0, l),
    decreases x,
{
    if x == 0 {
        lemma_tables_le_refl(t0, l);
    } else {
        lemma_sweep_upto_le(net, t0, (x - 1) as nat, l);
        lemma_known_in(t0[x - 1].entries, net.keys);
        lemma_exchanges_le(
            net,
            t0,
            sweep_upto(net, t0, (x - 1) as nat, l),
            x - 1,
            known(t0[x - 1].entries),
            l,
        );
    }
}

/// Convergence is monotone: from well-formed tables, each sweep keeps them
/// well formed, and no table entry is ever worse after a sweep than before.
pub proof fn lemma_sweeps_monotone(net: NetworkView, t: Seq<FingersView>, k: nat, l: nat)
    requires
        net.wf(),
        tables_wf(net, t),
    ensures
        tables_wf(net, sweeps(net, t, k, l)),
        tables_le(sweeps(net, t, k + 1, l), sweeps(net, t, k, l), l),
    decreases k,
{
    if k > 0 {
        lemma_sweeps_monotone(net, t, (k - 1) as nat, l);
        let tp = sweeps(net, t, (k - 1) as nat, l);
        lemma_sweep_upto_le(net, tp, tp.len(), l);
        assert(sweeps(net, t, k, l) == sweep(net, tp, l));
    }
    let tk = sweeps(net, t, k, l);
    lemma_sweep_upto_le(net, tk, tk.len(), l);
    assert(sweeps(net, t, k + 1, l) == sweep(net, tk, l));
}

/// Seeding keeps tables well formed: in particular no seeded route leads
/// back to the node that holds it.
pub proof fn lemma_seeded_wf(net: NetworkView, t: Seq<FingersView>, l: nat)
    requires
        net.wf(),
        tables_wf(net, t),
    ensures
        tables_wf(net, seeded(net, t, l)),
{
    let u = seeded(net, t, l);
    assert forall|i: int| 0 <= i < u.len() implies (#[trigger] u[i]).wf() && u[i].id == net.keys[i]
        && dests_in(u[i].entries, net.keys) by {
        let f = t[i];
        let chains = seed_chains(net, i);
        assert forall|j: int| 0 <= j < chains.len() implies net.keys.contains(
            (#[trigger] chains[j]).final_id,
        ) by {
            let y = net.adj[i][j];
            assert(net.keys[y as int] == chains[j].final_id);
        }
        assert(f.wf());
        assert(FingersView { id: f.id, targets: f.targets, entries: f.entries } == f);
        crate::node_fingers::lemma_absorbed_wf(f.id, f.targets, f.entries, chains, 0, l);
        lemma_absorbed_dests(f.id, f.targets, f.entries, chains, 0, l, net.keys);
    }
}

} // verus!
