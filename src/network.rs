//! The graph that the ring overlay runs on: nodes by index, each carrying a
//! unique ring key, with undirected edges.

use crate::ring::RingKey;
use vstd::prelude::*;

verus! {

/// The mathematical content of a network.
pub struct NetworkView {
    pub keys: Seq<RingKey>,
    pub adj: Seq<Seq<usize>>,
}

impl NetworkView {
    /// Keys are unique, there is one neighbor list per node, and every edge
    /// joins two distinct nodes in both directions.
    pub open spec fn wf(self) -> bool {
        &&& self.adj.len() == self.keys.len()
        &&& self.keys.len() <= usize::MAX
        &&& forall|i: int, j: int|
            0 <= i < self.keys.len() && 0 <= j < self.keys.len() && i != j ==> self.keys[i]
                != self.keys[j]
        &&& forall|a: int, k: int|
            0 <= a < self.adj.len() && 0 <= k < self.adj[a].len() ==> #[trigger] self.adj[a][k]
                < self.adj.len() && self.adj[a][k] != a
        &&& forall|a: int, b: int|
            0 <= a < self.adj.len() && 0 <= b < self.adj.len() ==> (#[trigger] self.adj[a].contains(
                b as usize,
            ) <==> #[trigger] self.adj[b].contains(a as usize))
    }

    /// The index of the node with key `key`.
    pub open spec fn index_of(self, key: RingKey) -> int {
        choose|i: int| 0 <= i < self.keys.len() && self.keys[i] == key
    }
}

/// `index_of` finds the node that carries a key.
pub proof fn lemma_index_of(net: NetworkView, i: int)
    requires
        net.wf(),
        0 <= i < net.keys.len(),
    ensures
        net.index_of(net.keys[i]) == i,
{
    let j = net.index_of(net.keys[i]);
    assert(0 <= j < net.keys.len() && net.keys[j] == net.keys[i]);
}

/// A graph whose nodes carry ring keys.
pub struct Network {
    keys: Vec<RingKey>,
    adj: Vec<Vec<usize>>,
}

impl View for Network {
    type V = NetworkView;

    closed spec fn view(&self) -> NetworkView {
        NetworkView { keys: self.keys@, adj: self.adj@.map_values(|v: Vec<usize>| v@) }
    }
}

impl Network {
    /// A network without nodes.
    pub fn new() -> (r: Network)
        ensures
            r@.wf(),
            r@.keys.len() == 0,
    {
        let r = Network { keys: Vec::new(), adj: Vec::new() };
        proof {
            assert(r@.adj.len() == 0);
        }
        r
    }

    /// Number of nodes.
    pub fn node_count(&self) -> (r: usize)
        ensures
            r == self@.keys.len(),
    {
        proof {
            assert(self@.adj.len() == self.adj@.len());
        }
        self.keys.len()
    }

    /// Adds a node with key `key`, without edges, and returns its index.
    pub fn add_node(&mut self, key: RingKey) -> (r: usize)
        requires
            old(self)@.wf(),
            !old(self)@.keys.contains(key),
            old(self)@.keys.len() < usize::MAX,
        ensures
            final(self)@.wf(),
            r == old(self)@.keys.len(),
            final(self)@.keys == old(self)@.keys.push(key),
            final(self)@.adj == old(self)@.adj.push(Seq::empty()),
    {
        let r = self.keys.len();
        proof {
            assert(old(self)@.adj.len() == self.adj@.len());
        }
        self.keys.push(key);
        self.adj.push(Vec::new());
        proof {
            assert(self@.adj =~= old(self)@.adj.push(Seq::empty()));
            let v = self@;
            assert forall|i: int, j: int|
                0 <= i < v.keys.len() && 0 <= j < v.keys.len() && i != j implies v.keys[i]
                != v.keys[j] by {
                if i == r {
                    assert(old(self)@.keys[j] == v.keys[j]);
                } else if j == r {
                    assert(old(self)@.keys[i] == v.keys[i]);
                }
            }
            assert forall|a: int, b: int| 0 <= a < v.adj.len() && 0 <= b < v.adj.len() implies (
            #[trigger] v.adj[a].contains(b as usize) <==> #[trigger] v.adj[b].contains(
                a as usize,
            )) by {
                if a == r {
                    assert(!v.adj[a].contains(b as usize));
                    if v.adj[b].contains(a as usize) {
                        let k = choose|k: int|
                            0 <= k < v.adj[b].len() && v.adj[b][k] == a as usize;
                        assert(old(self)@.adj[b][k] == a);
                    }
                }
                if b == r {
                    assert(!v.adj[b].contains(a as usize));
                    if v.adj[a].contains(b as usize) {
                        let k = choose|k: int|
                            0 <= k < v.adj[a].len() && v.adj[a][k] == b as usize;
                        assert(old(self)@.adj[a][k] == b);
                    }
                }
            }
        }
        r
    }

    /// The key of node `i`, if there is such a node.
    pub fn index_to_node(&self, i: usize) -> (r: Option<RingKey>)
        ensures
            r == (if i < self@.keys.len() {
                Some(self@.keys[i as int])
            } else {
                None
            }),
    {
        if i < self.keys.len() {
            Some(self.keys[i])
        } else {
            None
        }
    }

    /// The index of the node with key `key`, if there is one.
    pub fn node_to_index(&self, key: RingKey) -> (r: Option<usize>)
        requires
            self@.wf(),
        ensures
            r == (if self@.keys.contains(key) {
                Some(self@.index_of(key) as usize)
            } else {
                None::<usize>
            }),
    {
        let mut i: usize = 0;
        while i < self.keys.len()
            invariant
                i <= self.keys.len(),
                self@.wf(),
                forall|j: int| 0 <= j < i ==> self.keys@[j] != key,
            decreases self.keys.len() - i,
        {
            if self.keys[i] == key {
                proof {
                    lemma_index_of(self@, i as int);
                }
                return Some(i);
            }
            i = i + 1;
        }
        None
    }

    /// The neighbors of node `i`.
    pub fn neighbors(&self, i: usize) -> (r: &Vec<usize>)
        requires
            i < self@.adj.len(),
        ensures
            r@ == self@.adj[i as int],
    {
        &self.adj[i]
    }

    /// Whether nodes `a` and `b` are joined by an edge.
    pub fn contains_edge(&self, a: usize, b: usize) -> (r: bool)
        requires
            a < self@.adj.len(),
        ensures
            r == self@.adj[a as int].contains(b),
    {
        let nbrs = &self.adj[a];
        let mut k: usize = 0;
        while k < nbrs.len()
            invariant
                k <= nbrs.len(),
                nbrs@ == self@.adj[a as int],
                forall|j: int| 0 <= j < k ==> nbrs@[j] != b,
            decreases nbrs.len() - k,
        {
            if nbrs[k] == b {
                return true;
            }
            k = k + 1;
        }
        false
    }

    /// Joins nodes `a` and `b` by an edge, unless they already are.
    pub fn add_edge(&mut self, a: usize, b: usize)
        requires
            old(self)@.wf(),
            a < old(self)@.keys.len(),
            b < old(self)@.keys.len(),
            a != b,
        ensures
            final(self)@.wf(),
            final(self)@.keys == old(self)@.keys,
            if old(self)@.adj[a as int].contains(b) {
                final(self)@.adj == old(self)@.adj
            } else {
                final(self)@.adj == old(self)@.adj.update(
                    a as int,
                    old(self)@.adj[a as int].push(b),
                ).update(b as int, old(self)@.adj[b as int].push(a))
            },
            final(self)@.adj[a as int].contains(b),
            final(self)@.adj[b as int].contains(a),
            forall|x: int, y: usize|
                0 <= x < old(self)@.adj.len() && #[trigger] old(self)@.adj[x].contains(y)
                    ==> #[trigger] final(self)@.adj[x].contains(y),
    {
        if self.contains_edge(a, b) {
            proof {
                let ai = a as int;
                let bi = b as int;
                assert(self@.adj[ai].contains(bi as usize));
                assert(self@.adj[bi].contains(ai as usize));
            }
            return;
        }
        let ghost old_v = self@;
        let ghost n = self.adj.len();
        proof {
            assert(old_v.adj.len() == self.adj@.len());
        }
        self.adj[a].push(b);
        self.adj[b].push(a);
        proof {
            let v = self@;
            let goal = old_v.adj.update(a as int, old_v.adj[a as int].push(b)).update(
                b as int,
                old_v.adj[b as int].push(a),
            );
            assert(v.adj =~= goal);
            assert forall|x: int, k: int|
                0 <= x < v.adj.len() && 0 <= k < v.adj[x].len() implies #[trigger] v.adj[x][k]
                < v.adj.len() && v.adj[x][k] != x by {
                if x != a && x != b {
                    assert(v.adj[x][k] == old_v.adj[x][k]);
                } else if k < old_v.adj[x].len() {
                    assert(v.adj[x][k] == old_v.adj[x][k]);
                }
            }
            lemma_push_contains(old_v.adj[a as int], b, b);
            lemma_push_contains(old_v.adj[b as int], a, a);
            assert forall|x: int, y: usize|
                0 <= x < old_v.adj.len() && #[trigger] old_v.adj[x].contains(y) implies #[trigger] v.adj[x].contains(y) by {
                if x == a {
                    lemma_push_contains(old_v.adj[x], b, y);
                } else if x == b {
                    lemma_push_contains(old_v.adj[x], a, y);
                }
            }
            assert forall|x: int, y: int| 0 <= x < v.adj.len() && 0 <= y < v.adj.len() implies (
            #[trigger] v.adj[x].contains(y as usize) <==> #[trigger] v.adj[y].contains(
                x as usize,
            )) by {
                assert(v.adj.len() == n && n <= usize::MAX);
                assert(old_v.adj[x].contains(y as usize) <==> old_v.adj[y].contains(x as usize));
                if x == a {
                    lemma_push_contains(old_v.adj[x], b, y as usize);
                } else if x == b {
                    lemma_push_contains(old_v.adj[x], a, y as usize);
                }
                if y == a {
                    lemma_push_contains(old_v.adj[y], b, x as usize);
                } else if y == b {
                    lemma_push_contains(old_v.adj[y], a, x as usize);
                }
            }
        }
    }
}

/// What a sequence holds after a push.
proof fn lemma_push_contains(s: Seq<usize>, v: usize, w: usize)
    ensures
        s.push(v).contains(w) <==> (s.contains(w) || w == v),
{
    if s.contains(w) {
        let k = choose|k: int| 0 <= k < s.len() && s[k] == w;
        assert(s.push(v)[k] == w);
    }
    if w == v {
        assert(s.push(v)[s.len() as int] == w);
    }
    if s.push(v).contains(w) {
        let k = choose|k: int| 0 <= k < s.len() + 1 && s.push(v)[k] == w;
        if k < s.len() {
            assert(s[k] == w);
        }
    }
}

} // verus!
