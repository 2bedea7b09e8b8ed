//! A node's route index: the routes it knows of, each as its end and its
//! total hop-count, searched for the one that ends closest before a key.

use crate::node_fingers::SemiChain;
use crate::ring::RingKey;
use vstd::prelude::*;

verus! {

/// Clockwise distance from `a` to `b` over all 64-bit keys. On keys of `l`
/// bits it orders candidates exactly as the distance on the `l`-bit ring does.
pub open spec fn dist64(a: RingKey, b: RingKey) -> int {
    (b as int - a as int) % 0x1_0000_0000_0000_0000
}

/// Route `a` is a better step toward `dst` than route `b`: it ends closer
/// before `dst`, or as close and in fewer hops.
pub open spec fn route_lt(a: SemiChain, b: SemiChain, dst: RingKey) -> bool {
    dist64(a.final_id, dst) < dist64(b.final_id, dst) || (dist64(a.final_id, dst) == dist64(
        b.final_id,
        dst,
    ) && a.length < b.length)
}

/// The best step toward `dst` among `routes`; of equally good ones, the first.
pub open spec fn best_route(routes: Seq<SemiChain>, dst: RingKey) -> Option<SemiChain>
    decreases routes.len(),
{
    if routes.len() == 0 {
        None
    } else {
        let prev = best_route(routes.drop_last(), dst);
        let c = routes.last();
        match prev {
            None => Some(c),
            Some(b) => if route_lt(c, b, dst) {
                Some(c)
            } else {
                prev
            },
        }
    }
}

/// `best_route` picks one of the routes, and none of them is better.
pub proof fn lemma_best_route_min(routes: Seq<SemiChain>, dst: RingKey)
    ensures
        routes.len() == 0 <==> best_route(routes, dst) is None,
        best_route(routes, dst) is Some ==> routes.contains(best_route(routes, dst)->0),
        best_route(routes, dst) is Some ==> forall|j: int|
            0 <= j < routes.len() ==> !route_lt(
                #[trigger] routes[j],
                best_route(routes, dst)->0,
                dst,
            ),
    decreases routes.len(),
{
    if routes.len() > 0 {
        let init = routes.drop_last();
        lemma_best_route_min(init, dst);
        let b = best_route(routes, dst)->0;
        if best_route(init, dst) is Some && b == best_route(init, dst)->0 {
            let k = choose|k: int| 0 <= k < init.len() && init[k] == b;
            assert(routes[k] == b);
            assert forall|j: int| 0 <= j < routes.len() implies !route_lt(
                #[trigger] routes[j],
                b,
                dst,
            ) by {
                if j < init.len() {
                    assert(routes[j] == init[j]);
                }
            }
        } else {
            assert(routes[routes.len() - 1] == b);
            assert forall|j: int| 0 <= j < routes.len() implies !route_lt(
                #[trigger] routes[j],
                b,
                dst,
            ) by {
                if j < init.len() {
                    assert(routes[j] == init[j]);
                }
            }
        }
    }
}

/// The routes that one node knows of.
pub struct SemiRoutesArray {
    routes: Vec<SemiChain>,
}

impl View for SemiRoutesArray {
    type V = Seq<SemiChain>;

    closed spec fn view(&self) -> Seq<SemiChain> {
        self.routes@
    }
}

/// Clockwise distance from `a` to `b` over all 64-bit keys.
pub(crate) fn dist_u64(a: RingKey, b: RingKey) -> (r: u64)
    ensures
        r == dist64(a, b),
{
    b.wrapping_sub(a)
}

impl SemiRoutesArray {
    /// An index without routes.
    pub fn new() -> (r: SemiRoutesArray)
        ensures
            r@ == Seq::<SemiChain>::empty(),
    {
        SemiRoutesArray { routes: Vec::new() }
    }

    /// Adds a route.
    pub fn insert_sroute(&mut self, sroute: SemiChain)
        ensures
            final(self)@ == old(self)@.push(sroute),
    {
        self.routes.push(sroute);
    }

    /// The routes, in the order they were added.
    pub fn routes(&self) -> (r: &Vec<SemiChain>)
        ensures
            r@ == self@,
    {
        &self.routes
    }

    /// The route that ends closest before `dst` clockwise, the shortest of
    /// those; `None` when there is no route.
    pub fn find_closest_left(&self, dst: RingKey) -> (r: Option<SemiChain>)
        ensures
            r == best_route(self@, dst),
    {
        let mut best: Option<SemiChain> = None;
        let mut i: usize = 0;
        while i < self.routes.len()
            invariant
                i <= self.routes.len(),
                best == best_route(self.routes@.take(i as int), dst),
            decreases self.routes.len() - i,
        {
            proof {
                assert(self.routes@.take(i + 1).drop_last() =~= self.routes@.take(i as int));
            }
            let c = self.routes[i];
            match best {
                None => {
                    best = Some(c);
                },
                Some(b) => {
                    let dc = dist_u64(c.final_id, dst);
                    let db = dist_u64(b.final_id, dst);
                    if dc < db || (dc == db && c.length < b.length) {
                        best = Some(c);
                    }
                },
            }
            i = i + 1;
        }
        proof {
            assert(self.routes@.take(i as int) =~= self.routes@);
        }
        best
    }
}

} // verus!
