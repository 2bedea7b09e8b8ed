//! Random networks whose nodes carry distinct random ring keys.

use crate::network::{Network, NetworkView};
use crate::random::gen_in_range;
use crate::ring::{key_space, lemma_key_space_bounds, pow2_u64, RingKey};
use rand::rngs::StdRng;
use vstd::prelude::*;
use vstd::set_lib::{lemma_int_range, lemma_len_subset, set_int_range};

verus! {

/// How many times a key is drawn again when the drawn one is taken, before the
/// smallest free key is used instead.
pub const MAX_KEY_DRAWS: usize = 1000;

/// Among the `keys.len() + 1` smallest keys, one is free.
proof fn lemma_free_key_exists(keys: Seq<RingKey>)
    requires
        keys.len() < u64::MAX,
    ensures
        exists|v: RingKey| v <= keys.len() && !#[trigger] keys.contains(v),
{
    let ik = keys.map_values(|k: RingKey| k as int);
    let range = set_int_range(0, keys.len() + 1 as int);
    if forall|v: RingKey| v <= keys.len() ==> #[trigger] keys.contains(v) {
        ik.lemma_cardinality_of_set();
        lemma_int_range(0, keys.len() + 1 as int);
        assert(range.subset_of(ik.to_set())) by {
            assert forall|v: int| range.contains(v) implies ik.to_set().contains(v) by {
                assert(v <= u64::MAX);
                assert(keys.contains(v as RingKey));
                let j = choose|j: int| 0 <= j < keys.len() && keys[j] == v as RingKey;
                assert(ik[j] == v);
            }
        }
        lemma_len_subset(range, ik.to_set());
        assert(false);
    }
}

/// The smallest key that no node of `net` carries.
fn smallest_free_key(net: &Network) -> (r: RingKey)
    requires
        net@.wf(),
        net@.keys.len() < u64::MAX,
    ensures
        !net@.keys.contains(r),
        r <= net@.keys.len(),
{
    let n = net.node_count();
    proof {
        lemma_free_key_exists(net@.keys);
    }
    let mut v: u64 = 0;
    while v <= n as u64
        invariant
            net@.wf(),
            n == net@.keys.len() < u64::MAX,
            v <= n + 1,
            forall|w: RingKey| w < v ==> #[trigger] net@.keys.contains(w),
            exists|w: RingKey| w <= n && !#[trigger] net@.keys.contains(w),
        decreases n + 1 - v,
    {
        if net.node_to_index(v).is_none() {
            return v;
        }
        v = v + 1;
    }
    proof {
        let w = choose|w: RingKey| w <= n && !net@.keys.contains(w);
        assert(net@.keys.contains(w));
    }
    0
}

/// A key below `max_key` that no node of `net` carries: drawn at random, and
/// drawn again while taken, up to `MAX_KEY_DRAWS` draws.
fn draw_free_key(net: &Network, max_key: u64, rng: &mut StdRng) -> (r: RingKey)
    requires
        net@.wf(),
        net@.keys.len() < max_key,
    ensures
        !net@.keys.contains(r),
        r < max_key,
{
    let mut node_key = gen_in_range(rng, 0, max_key);
    let mut draws: usize = 1;
    while net.node_to_index(node_key).is_some() && draws < MAX_KEY_DRAWS
        invariant
            net@.wf(),
            net@.keys.len() < max_key,
            node_key < max_key,
        decreases MAX_KEY_DRAWS - draws,
    {
        node_key = gen_in_range(rng, 0, max_key);
        draws = draws + 1;
    }
    if net.node_to_index(node_key).is_some() {
        smallest_free_key(net)
    } else {
        node_key
    }
}

/// The keys of `net` are all below `max_key`.
pub open spec fn keys_below(net: NetworkView, max_key: int) -> bool {
    forall|i: int| 0 <= i < net.keys.len() ==> #[trigger] net.keys[i] < max_key
}

/// A network of `num_nodes` nodes with distinct random `l`-bit keys, joined
/// in a line in the order they were added, each node then joined to about
/// `num_neighbors` random others.
pub fn random_net_chord(num_nodes: usize, num_neighbors: usize, l: usize, rng: &mut StdRng) -> (r:
    Network)
    requires
        l < 64,
        num_nodes > 0,
        (num_nodes + 1) * (num_nodes + 1) <= key_space(l as nat),
    ensures
        r@.wf(),
        r@.keys.len() == num_nodes,
        keys_below(r@, key_space(l as nat)),
        forall|v: int| 0 <= v < num_nodes - 1 ==> #[trigger] r@.adj[v].contains((v + 1) as usize),
{
    let max_key = pow2_u64(l);
    proof {
        lemma_key_space_bounds(l as nat);
        assert(num_nodes < (num_nodes + 1) * (num_nodes + 1)) by (nonlinear_arith);
    }
    let mut net = Network::new();
    let mut i: usize = 0;
    while i < num_nodes
        invariant
            i <= num_nodes < max_key,
            max_key == key_space(l as nat),
            net@.wf(),
            net@.keys.len() == i,
            keys_below(net@, max_key as int),
        decreases num_nodes - i,
    {
        let node_key = draw_free_key(&net, max_key, rng);
        net.add_node(node_key);
        i = i + 1;
    }
    let mut v: usize = 0;
    while v + 1 < num_nodes
        invariant
            net@.wf(),
            net@.keys.len() == num_nodes,
            keys_below(net@, max_key as int),
            v < num_nodes,
            forall|w: int| 0 <= w < v ==> #[trigger] net@.adj[w].contains((w + 1) as usize),
        decreases num_nodes - v,
    {
        net.add_edge(v, v + 1);
        v = v + 1;
    }
    let mut v: usize = 0;
    while v < num_nodes
        invariant
            net@.wf(),
            net@.keys.len() == num_nodes < max_key,
            keys_below(net@, max_key as int),
            v <= num_nodes,
            forall|w: int| 0 <= w < num_nodes - 1 ==> #[trigger] net@.adj[w].contains((w + 1) as usize),
        decreases num_nodes - v,
    {
        let mut j: usize = 0;
        while j < num_neighbors
            invariant
                net@.wf(),
                net@.keys.len() == num_nodes < max_key,
                keys_below(net@, max_key as int),
                v < num_nodes,
                j <= num_neighbors,
                forall|w: int|
                    0 <= w < num_nodes - 1 ==> #[trigger] net@.adj[w].contains((w + 1) as usize),
            decreases num_neighbors - j,
        {
            let u = gen_in_range(rng, 0, num_nodes as u64) as usize;
            if u != v && !net.contains_edge(v, u) {
                let ghost before = net@;
                net.add_edge(v, u);
                proof {
                    assert forall|w: int| 0 <= w < num_nodes - 1 implies #[trigger] net@.adj[w].contains(
                        (w + 1) as usize,
                    ) by {
                        assert(before.adj[w].contains((w + 1) as usize));
                    }
                }
            }
            j = j + 1;
        }
        v = v + 1;
    }
    net
}

/// A `k` by `k` grid of nodes with distinct random `l`-bit keys. Node
/// `x * k + y` stands at `(x, y)` and is joined to the nodes beside it.
pub fn random_grid2_net_chord(k: usize, l: usize, rng: &mut StdRng) -> (r: Network)
    requires
        l < 64,
        k > 0,
        k * k < key_space(l as nat),
        k * k <= usize::MAX,
    ensures
        r@.wf(),
        r@.keys.len() == k * k,
        keys_below(r@, key_space(l as nat)),
        forall|i: int|
            0 <= i < k * k && i + k < k * k ==> #[trigger] r@.adj[i].contains((i + k) as usize),
        forall|i: int|
            0 <= i < k * k && i % (k as int) != k - 1 ==> #[trigger] r@.adj[i].contains(
                (i + 1) as usize,
            ),
{
    let max_key = pow2_u64(l);
    proof {
        lemma_key_space_bounds(l as nat);
        assert(k <= k * k) by (nonlinear_arith)
            requires
                k > 0,
        ;
    }
    let n = k * k;
    let mut net = Network::new();
    let mut i: usize = 0;
    while i < n
        invariant
            i <= n < max_key,
            n == k * k,
            max_key == key_space(l as nat),
            net@.wf(),
            net@.keys.len() == i,
            keys_below(net@, max_key as int),
        decreases n - i,
    {
        let node_key = draw_free_key(&net, max_key, rng);
        net.add_node(node_key);
        i = i + 1;
    }
    let mut i: usize = 0;
    while i < n
        invariant
            n == k * k,
            k > 0,
            k <= n,
            net@.wf(),
            net@.keys.len() == n,
            keys_below(net@, max_key as int),
            i <= n,
            forall|w: int| 0 <= w < i && w + k < n ==> #[trigger] net@.adj[w].contains((w + k) as usize),
            forall|w: int|
                0 <= w < i && w % (k as int) != k - 1 ==> #[trigger] net@.adj[w].contains(
                    (w + 1) as usize,
                ),
        decreases n - i,
    {
        if i < n - k {
            net.add_edge(i, i + k);
        }
        if i % k != k - 1 {
            proof {
                let q = i as int / k as int;
                let r = i as int % k as int;
                vstd::arithmetic::div_mod::lemma_fundamental_div_mod(i as int, k as int);
                assert(i + 1 < n) by (nonlinear_arith)
                    requires
                        i < n,
                        n == k * k,
                        i == k * q + r,
                        0 <= r < k - 1,
                        k > 0,
                ;
            }
            net.add_edge(i, i + 1);
        }
        i = i + 1;
    }
    net
}

} // verus!
