//! The coupon collector: draws of coupon kinds until every kind has come.

use crate::random::gen_in_range;
use rand::rngs::StdRng;
use vstd::prelude::*;

verus! {

/// Which coupon kinds have been collected.
pub struct Coupons {
    coupons: Vec<bool>,
}

impl View for Coupons {
    type V = Seq<bool>;

    closed spec fn view(&self) -> Seq<bool> {
        self.coupons@
    }
}

/// Every kind has been collected.
pub open spec fn all_collected(s: Seq<bool>) -> bool {
    forall|i: int| 0 <= i < s.len() ==> #[trigger] s[i]
}

/// `s` once each kind of `picks` has been collected.
pub open spec fn collected(s: Seq<bool>, picks: Seq<usize>) -> Seq<bool> {
    Seq::new(s.len(), |i: int| s[i] || picks.contains(i as usize))
}

impl Coupons {
    /// `n` kinds, none collected.
    pub fn new(n: usize) -> (r: Coupons)
        ensures
            r@ == Seq::new(n as nat, |i: int| false),
    {
        let mut coupons: Vec<bool> = Vec::new();
        let mut i: usize = 0;
        while i < n
            invariant
                i <= n,
                coupons@ == Seq::new(i as nat, |j: int| false),
            decreases n - i,
        {
            coupons.push(false);
            i = i + 1;
            proof {
                assert(coupons@ =~= Seq::new(i as nat, |j: int| false));
            }
        }
        Coupons { coupons }
    }

    /// Whether every kind has been collected.
    pub fn is_done(&self) -> (r: bool)
        ensures
            r == all_collected(self@),
    {
        let mut i: usize = 0;
        while i < self.coupons.len()
            invariant
                i <= self.coupons.len(),
                forall|j: int| 0 <= j < i ==> self.coupons@[j],
            decreases self.coupons.len() - i,
        {
            if !self.coupons[i] {
                return false;
            }
            i = i + 1;
        }
        true
    }

    /// Collects the kinds of `picks`, then tells whether every kind has been
    /// collected.
    pub fn collect(&mut self, picks: &Vec<usize>) -> (r: bool)
        requires
            forall|j: int| 0 <= j < picks@.len() ==> #[trigger] picks@[j] < old(self)@.len(),
        ensures
            final(self)@ == collected(old(self)@, picks@),
            r == all_collected(final(self)@),
    {
        let mut j: usize = 0;
        while j < picks.len()
            invariant
                j <= picks.len(),
                forall|q: int| 0 <= q < picks@.len() ==> #[trigger] picks@[q] < old(self)@.len(),
                self@ == collected(old(self)@, picks@.take(j as int)),
            decreases picks.len() - j,
        {
            let i = picks[j];
            let ghost prev = self@;
            self.coupons.set(i, true);
            j = j + 1;
            proof {
                let t = picks@.take(j as int);
                assert forall|x: int| 0 <= x < self@.len() implies self@[x] == collected(
                    old(self)@,
                    t,
                )[x] by {
                    let tp = picks@.take(j - 1);
                    assert(self@.len() == old(self)@.len());
                    assert(self@.len() == self.coupons.len());
                    assert(prev[x] == collected(old(self)@, tp)[x]);
                    assert(t[j - 1] == i);
                    if tp.contains(x as usize) {
                        let q = choose|q: int| 0 <= q < tp.len() && tp[q] == x as usize;
                        assert(t[q] == x as usize);
                    }
                    if t.contains(x as usize) && x != i {
                        let q = choose|q: int| 0 <= q < t.len() && t[q] == x as usize;
                        assert(q != j - 1);
                        assert(tp[q] == x as usize);
                    }
                    if x == i {
                        assert(t[j - 1] == i);
                    }
                }
                assert(self@ =~= collected(old(self)@, t));
            }
        }
        proof {
            assert(picks@.take(j as int) =~= picks@);
        }
        self.is_done()
    }

    /// Draws `k` kinds at random and collects them; tells whether every kind
    /// has been collected.
    pub fn batch_coupons(&mut self, k: usize, rng: &mut StdRng) -> (r: bool)
        requires
            k == 0 || old(self)@.len() > 0,
        ensures
            final(self)@.len() == old(self)@.len(),
            forall|i: int| 0 <= i < old(self)@.len() && old(self)@[i] ==> final(self)@[i],
            r == all_collected(final(self)@),
    {
        let n = self.coupons.len();
        let mut picks: Vec<usize> = Vec::new();
        let mut j: usize = 0;
        while j < k
            invariant
                j <= k,
                k == 0 || n > 0,
                n == old(self)@.len(),
                forall|q: int| 0 <= q < picks@.len() ==> #[trigger] picks@[q] < n,
            decreases k - j,
        {
            let i = gen_in_range(rng, 0, n as u64);
            picks.push(i as usize);
            j = j + 1;
        }
        self.collect(&picks)
    }
}

} // verus!
