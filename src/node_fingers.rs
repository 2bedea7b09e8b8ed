//! A node's finger table: for each of its target identifiers, the best route
//! it knows of toward that target.

use crate::ring::{ring_dist, vdist, RingKey};
use vstd::prelude::*;

verus! {

/// What a node knows of a route: where it ends and how many hops it takes.
#[derive(Clone, Copy, Debug, PartialEq, Eq, Structural)]
pub struct SemiChain {
    pub final_id: RingKey,
    pub length: usize,
}

/// `a` serves target `t` strictly better than `b`: it ends nearer after `t`
/// clockwise, then it is shorter, then its end has the smaller identifier.
pub open spec fn chain_lt(a: SemiChain, b: SemiChain, t: int, l: nat) -> bool {
    let da = ring_dist(t, a.final_id as int, l);
    let db = ring_dist(t, b.final_id as int, l);
    da < db || (da == db && (a.length < b.length || (a.length == b.length && a.final_id
        < b.final_id)))
}

/// The entry for target `t` once candidate `c` has been offered to it.
pub open spec fn improved(e: Option<SemiChain>, c: SemiChain, t: int, l: nat) -> Option<
    SemiChain,
> {
    match e {
        None => Some(c),
        Some(d) => if chain_lt(c, d, t, l) {
            Some(c)
        } else {
            e
        },
    }
}

/// Entry `new` for target `t` is at least as good as entry `old`.
pub open spec fn entry_le(new: Option<SemiChain>, old: Option<SemiChain>, t: int, l: nat) -> bool {
    match old {
        None => true,
        Some(b) => match new {
            None => false,
            Some(a) => a == b || chain_lt(a, b, t, l),
        },
    }
}

/// Every entry of `new` is at least as good as the entry of `old` for its target.
pub open spec fn entries_le(
    new: Seq<Option<SemiChain>>,
    old: Seq<Option<SemiChain>>,
    targets: Seq<RingKey>,
    l: nat,
) -> bool {
    &&& new.len() == old.len()
    &&& forall|k: int|
        0 <= k < old.len() ==> #[trigger] entry_le(new[k], old[k], targets[k] as int, l)
}

/// The table of node `id` once candidate `c` has been offered to it: a route
/// back to `id` itself is refused, any other improves each target it serves
/// better.
pub open spec fn offered(
    id: RingKey,
    targets: Seq<RingKey>,
    entries: Seq<Option<SemiChain>>,
    c: SemiChain,
    l: nat,
) -> Seq<Option<SemiChain>> {
    if c.final_id == id {
        entries
    } else {
        Seq::new(entries.len(), |k: int| improved(entries[k], c, targets[k] as int, l))
    }
}

/// The table of node `id` once each route of `chains`, in order and taken
/// `extra` hops further, has been offered to it. A route whose hop-count would
/// not fit in `usize` is passed over.
pub open spec fn absorbed(
    id: RingKey,
    targets: Seq<RingKey>,
    entries: Seq<Option<SemiChain>>,
    chains: Seq<SemiChain>,
    extra: int,
    l: nat,
) -> Seq<Option<SemiChain>>
    decreases chains.len(),
{
    if chains.len() == 0 {
        entries
    } else {
        let prev = absorbed(id, targets, entries, chains.drop_last(), extra, l);
        let c = chains.last();
        if c.length + extra > usize::MAX {
            prev
        } else {
            offered(
                id,
                targets,
                prev,
                SemiChain { final_id: c.final_id, length: (c.length + extra) as usize },
                l,
            )
        }
    }
}

/// The routes that a table holds, in the order of its targets.
pub open spec fn known(entries: Seq<Option<SemiChain>>) -> Seq<SemiChain>
    decreases entries.len(),
{
    if entries.len() == 0 {
        Seq::empty()
    } else {
        let prev = known(entries.drop_last());
        match entries.last() {
            Some(c) => prev.push(c),
            None => prev,
        }
    }
}

/// The mathematical content of a finger table.
pub struct FingersView {
    pub id: RingKey,
    pub targets: Seq<RingKey>,
    pub entries: Seq<Option<SemiChain>>,
}

impl FingersView {
    /// One entry per target, and no entry leads back to the owner.
    pub open spec fn wf(self) -> bool {
        &&& self.entries.len() == self.targets.len()
        &&& forall|k: int|
            0 <= k < self.entries.len() && (#[trigger] self.entries[k]) is Some
                ==> self.entries[k]->0.final_id != self.id
    }
}

/// The finger table of one node.
pub struct NodeFingers {
    x_id: RingKey,
    target_ids: Vec<RingKey>,
    fingers: Vec<Option<SemiChain>>,
}

impl View for NodeFingers {
    type V = FingersView;

    closed spec fn view(&self) -> FingersView {
        FingersView { id: self.x_id, targets: self.target_ids@, entries: self.fingers@ }
    }
}

/// Each route that `known` lists is an entry of the table.
pub proof fn lemma_known_from_entries(entries: Seq<Option<SemiChain>>)
    ensures
        forall|j: int|
            0 <= j < known(entries).len() ==> exists|k: int|
                0 <= k < entries.len() && entries[k] == Some(#[trigger] known(entries)[j]),
    decreases entries.len(),
{
    if entries.len() > 0 {
        let prev = entries.drop_last();
        lemma_known_from_entries(prev);
        assert forall|j: int| 0 <= j < known(entries).len() implies exists|k: int|
            0 <= k < entries.len() && entries[k] == Some(#[trigger] known(entries)[j]) by {
            if j < known(prev).len() {
                let k = choose|k: int| 0 <= k < prev.len() && prev[k] == Some(known(prev)[j]);
                assert(entries[k] == prev[k]);
            } else {
                assert(entries[entries.len() - 1] == Some(known(entries)[j]));
            }
        }
    }
}

/// Offering a route never makes an entry worse.
pub proof fn lemma_offered_le(
    id: RingKey,
    targets: Seq<RingKey>,
    entries: Seq<Option<SemiChain>>,
    c: SemiChain,
    l: nat,
)
    requires
        entries.len() == targets.len(),
    ensures
        entries_le(offered(id, targets, entries, c, l), entries, targets, l),
{
}

/// Absorbing routes never makes an entry worse.
pub proof fn lemma_absorbed_le(
    id: RingKey,
    targets: Seq<RingKey>,
    entries: Seq<Option<SemiChain>>,
    chains: Seq<SemiChain>,
    extra: int,
    l: nat,
)
    requires
        entries.len() == targets.len(),
    ensures
        entries_le(absorbed(id, targets, entries, chains, extra, l), entries, targets, l),
    decreases chains.len(),
{
    if chains.len() > 0 {
        let prev = absorbed(id, targets, entries, chains.drop_last(), extra, l);
        lemma_absorbed_le(id, targets, entries, chains.drop_last(), extra, l);
        let cur = absorbed(id, targets, entries, chains, extra, l);
        assert forall|k: int| 0 <= k < entries.len() implies #[trigger] entry_le(
            cur[k],
            entries[k],
            targets[k] as int,
            l,
        ) by {
            assert(entry_le(prev[k], entries[k], targets[k] as int, l));
        }
    }
}


/// Being at least as good is transitive, and a table that moved away from
/// another by improvements stays away from it after further improvements.
pub proof fn lemma_entries_le_trans(
    newer: Seq<Option<SemiChain>>,
    new: Seq<Option<SemiChain>>,
    old: Seq<Option<SemiChain>>,
    targets: Seq<RingKey>,
    l: nat,
)
    requires
        entries_le(newer, new, targets, l),
        entries_le(new, old, targets, l),
    ensures
        entries_le(newer, old, targets, l),
        new != old ==> newer != old,
        newer != new ==> newer != old,
{
    assert forall|k: int| 0 <= k < old.len() implies #[trigger] entry_le(
        newer[k],
        old[k],
        targets[k] as int,
        l,
    ) by {
        assert(entry_le(newer[k], new[k], targets[k] as int, l));
        assert(entry_le(new[k], old[k], targets[k] as int, l));
    }
    if new != old {
        assert(!(new =~= old));
        let k = choose|k: int| 0 <= k < old.len() && new[k] != old[k];
        assert(entry_le(newer[k], new[k], targets[k] as int, l));
        assert(entry_le(new[k], old[k], targets[k] as int, l));
        assert(newer[k] != old[k]);
    }
    if newer != new {
        assert(!(newer =~= new));
        let k = choose|k: int| 0 <= k < new.len() && newer[k] != new[k];
        assert(entry_le(newer[k], new[k], targets[k] as int, l));
        assert(entry_le(new[k], old[k], targets[k] as int, l));
        assert(newer[k] != old[k]);
    }
}

/// Every route held in `entries` ends at one of `keys`.
pub open spec fn dests_in(entries: Seq<Option<SemiChain>>, keys: Seq<RingKey>) -> bool {
    forall|k: int|
        0 <= k < entries.len() && (#[trigger] entries[k]) is Some ==> keys.contains(
            entries[k]->0.final_id,
        )
}

/// Every route of `chains` ends at one of `keys`.
pub open spec fn chains_in(chains: Seq<SemiChain>, keys: Seq<RingKey>) -> bool {
    forall|j: int| 0 <= j < chains.len() ==> keys.contains((#[trigger] chains[j]).final_id)
}

/// The routes that a table lists end where its entries do.
pub proof fn lemma_known_in(entries: Seq<Option<SemiChain>>, keys: Seq<RingKey>)
    requires
        dests_in(entries, keys),
    ensures
        chains_in(known(entries), keys),
{
    lemma_known_from_entries(entries);
    assert forall|j: int| 0 <= j < known(entries).len() implies keys.contains(
        (#[trigger] known(entries)[j]).final_id,
    ) by {
        let k = choose|k: int| 0 <= k < entries.len() && entries[k] == Some(known(entries)[j]);
        assert(entries[k] is Some);
    }
}

/// Absorbing routes that end at `keys` keeps every route ending at `keys`.
pub proof fn lemma_absorbed_dests(
    id: RingKey,
    targets: Seq<RingKey>,
    entries: Seq<Option<SemiChain>>,
    chains: Seq<SemiChain>,
    extra: int,
    l: nat,
    keys: Seq<RingKey>,
)
    requires
        entries.len() == targets.len(),
        dests_in(entries, keys),
        chains_in(chains, keys),
    ensures
        dests_in(absorbed(id, targets, entries, chains, extra, l), keys),
        absorbed(id, targets, entries, chains, extra, l).len() == entries.len(),
    decreases chains.len(),
{
    if chains.len() > 0 {
        let init = chains.drop_last();
        assert forall|j: int| 0 <= j < init.len() implies keys.contains(
            (#[trigger] init[j]).final_id,
        ) by {
            assert(init[j] == chains[j]);
        }
        lemma_absorbed_dests(id, targets, entries, init, extra, l, keys);
        let prev = absorbed(id, targets, entries, init, extra, l);
        let cur = absorbed(id, targets, entries, chains, extra, l);
        assert(keys.contains(chains[chains.len() - 1].final_id));
        assert forall|k: int| 0 <= k < cur.len() && (#[trigger] cur[k]) is Some implies keys.contains(
            cur[k]->0.final_id,
        ) by {
            assert(prev[k] is Some ==> keys.contains(prev[k]->0.final_id));
        }
    }
}

/// Absorbing routes keeps a table well formed.
pub proof fn lemma_absorbed_wf(
    id: RingKey,
    targets: Seq<RingKey>,
    entries: Seq<Option<SemiChain>>,
    chains: Seq<SemiChain>,
    extra: int,
    l: nat,
)
    requires
        (FingersView { id, targets, entries }).wf(),
    ensures
        (FingersView { id, targets, entries: absorbed(id, targets, entries, chains, extra, l) }).wf(),
    decreases chains.len(),
{
    if chains.len() > 0 {
        lemma_absorbed_wf(id, targets, entries, chains.drop_last(), extra, l);
        lemma_absorbed_le(id, targets, entries, chains.drop_last(), extra, l);
        let prev = absorbed(id, targets, entries, chains.drop_last(), extra, l);
        let cur = absorbed(id, targets, entries, chains, extra, l);
        assert forall|k: int| 0 <= k < cur.len() && (#[trigger] cur[k]) is Some implies cur[k]->0.final_id
            != id by {
            assert(prev[k] is Some ==> prev[k]->0.final_id != id);
        }
    }
}

impl NodeFingers {
    /// An empty table for node `x_id` with the targets `left` followed by `right`.
    pub fn new(x_id: RingKey, target_ids_left: &Vec<RingKey>, target_ids_right: &Vec<RingKey>) -> (r:
        NodeFingers)
        ensures
            r@.id == x_id,
            r@.targets == target_ids_left@ + target_ids_right@,
            r@.entries == Seq::new(r@.targets.len(), |k: int| None::<SemiChain>),
            r@.wf(),
    {
        let mut target_ids: Vec<RingKey> = Vec::new();
        let mut fingers: Vec<Option<SemiChain>> = Vec::new();
        let mut i: usize = 0;
        while i < target_ids_left.len()
            invariant
                i <= target_ids_left.len(),
                target_ids@ == target_ids_left@.take(i as int),
                fingers@ == Seq::new(i as nat, |k: int| None::<SemiChain>),
            decreases target_ids_left.len() - i,
        {
            target_ids.push(target_ids_left[i]);
            fingers.push(None);
            i = i + 1;
            proof {
                assert(target_ids@ =~= target_ids_left@.take(i as int));
                assert(fingers@ =~= Seq::new(i as nat, |k: int| None::<SemiChain>));
            }
        }
        let mut j: usize = 0;
        while j < target_ids_right.len()
            invariant
                j <= target_ids_right.len(),
                target_ids@ == target_ids_left@ + target_ids_right@.take(j as int),
                fingers@ == Seq::new(target_ids@.len(), |k: int| None::<SemiChain>),
            decreases target_ids_right.len() - j,
        {
            target_ids.push(target_ids_right[j]);
            fingers.push(None);
            j = j + 1;
            proof {
                assert(target_ids@ =~= target_ids_left@ + target_ids_right@.take(j as int));
                assert(fingers@ =~= Seq::new(target_ids@.len(), |k: int| None::<SemiChain>));
            }
        }
        proof {
            assert(target_ids_right@.take(j as int) =~= target_ids_right@);
            assert(target_ids_left@.take(i as int) =~= target_ids_left@);
        }
        NodeFingers { x_id, target_ids, fingers }
    }

    /// The identifier of the node that owns the table.
    pub fn id(&self) -> (r: RingKey)
        ensures
            r == self@.id,
    {
        self.x_id
    }

    /// The table's target identifiers.
    pub fn target_ids(&self) -> (r: &Vec<RingKey>)
        ensures
            r@ == self@.targets,
    {
        &self.target_ids
    }

    /// The route held for the target at position `k`, if any.
    pub fn entry(&self, k: usize) -> (r: Option<SemiChain>)
        requires
            k < self@.entries.len(),
        ensures
            r == self@.entries[k as int],
    {
        self.fingers[k]
    }

    /// All routes that the table holds, in the order of its targets.
    pub fn all_schains(&self) -> (r: Vec<SemiChain>)
        ensures
            r@ == known(self@.entries),
    {
        let mut r: Vec<SemiChain> = Vec::new();
        let mut k: usize = 0;
        while k < self.fingers.len()
            invariant
                k <= self.fingers.len(),
                r@ == known(self.fingers@.take(k as int)),
            decreases self.fingers.len() - k,
        {
            proof {
                assert(self.fingers@.take(k + 1).drop_last() =~= self.fingers@.take(k as int));
            }
            match self.fingers[k] {
                Some(c) => r.push(c),
                None => {},
            }
            k = k + 1;
        }
        proof {
            assert(self.fingers@.take(k as int) =~= self.fingers@);
        }
        r
    }

    /// Offers `schain` to every target: it takes the place of each entry that
    /// it serves strictly better. A route back to the owner is refused.
    /// Returns whether the table changed.
    pub fn update(&mut self, schain: &SemiChain, l: usize) -> (r: bool)
        requires
            old(self)@.wf(),
            l < 64,
        ensures
            final(self)@.wf(),
            final(self)@.id == old(self)@.id,
            final(self)@.targets == old(self)@.targets,
            final(self)@.entries == offered(
                old(self)@.id,
                old(self)@.targets,
                old(self)@.entries,
                *schain,
                l as nat,
            ),
            r == (final(self)@.entries != old(self)@.entries),
    {
        let ghost start = self.fingers@;
        if schain.final_id == self.x_id {
            return false;
        }
        let ghost goal = offered(self.x_id, self.target_ids@, start, *schain, l as nat);
        let mut changed = false;
        let mut k: usize = 0;
        while k < self.fingers.len()
            invariant
                self.fingers@.len() == start.len() == self.target_ids@.len(),
                k <= start.len(),
                goal.len() == start.len(),
                goal == offered(self.x_id, self.target_ids@, start, *schain, l as nat),
                schain.final_id != self.x_id,
                self.x_id == old(self).x_id,
                self.target_ids@ == old(self).target_ids@,
                start == old(self).fingers@,
                l < 64,
                forall|j: int| 0 <= j < k ==> self.fingers@[j] == goal[j],
                forall|j: int| k <= j < start.len() ==> self.fingers@[j] == start[j],
                changed == exists|j: int| 0 <= j < k && start[j] != goal[j],
            decreases start.len() - k,
        {
            let t = self.target_ids[k];
            let dc = vdist(t, schain.final_id, l);
            let take = match self.fingers[k] {
                None => true,
                Some(d) => {
                    let dd = vdist(t, d.final_id, l);
                    dc < dd || (dc == dd && (schain.length < d.length || (schain.length
                        == d.length && schain.final_id < d.final_id)))
                },
            };
            proof {
                assert(take == (start[k as int] != goal[k as int]));
            }
            if take {
                self.fingers.set(k, Some(*schain));
                changed = true;
            }
            k = k + 1;
            proof {
                assert(changed == exists|j: int| 0 <= j < k && start[j] != goal[j]) by {
                    if changed && !take {
                        let j0 = choose|j: int| 0 <= j < k - 1 && start[j] != goal[j];
                        assert(0 <= j0 < k && start[j0] != goal[j0]);
                    }
                    if take {
                        assert(start[k - 1] != goal[k - 1]);
                    }
                }
            }
        }
        proof {
            assert(self.fingers@ =~= goal);
            if !changed {
                assert(goal =~= start);
            }
        }
        changed
    }

    /// Offers each route of `chains`, in order and `extra_hops` hops further,
    /// as `update` does. A route whose hop-count would not fit is passed over.
    /// Returns whether the table changed.
    pub fn update_by_chains(&mut self, chains: &Vec<SemiChain>, extra_hops: usize, l: usize) -> (r:
        bool)
        requires
            old(self)@.wf(),
            l < 64,
        ensures
            final(self)@.wf(),
            final(self)@.id == old(self)@.id,
            final(self)@.targets == old(self)@.targets,
            final(self)@.entries == absorbed(
                old(self)@.id,
                old(self)@.targets,
                old(self)@.entries,
                chains@,
                extra_hops as int,
                l as nat,
            ),
            r == (final(self)@.entries != old(self)@.entries),
    {
        let ghost start = self@;
        let mut changed = false;
        let mut i: usize = 0;
        while i < chains.len()
            invariant
                i <= chains.len(),
                l < 64,
                self@.wf(),
                self@.id == start.id,
                self@.targets == start.targets,
                start.entries.len() == start.targets.len(),
                self@.entries == absorbed(
                    start.id,
                    start.targets,
                    start.entries,
                    chains@.take(i as int),
                    extra_hops as int,
                    l as nat,
                ),
                changed == (self@.entries != start.entries),
            decreases chains.len() - i,
        {
            let ghost prev = self@.entries;
            proof {
                assert(chains@.take(i + 1).drop_last() =~= chains@.take(i as int));
                lemma_absorbed_le(
                    start.id,
                    start.targets,
                    start.entries,
                    chains@.take(i as int),
                    extra_hops as int,
                    l as nat,
                );
            }
            let c = chains[i];
            match c.length.checked_add(extra_hops) {
                Some(length) => {
                    let cand = SemiChain { final_id: c.final_id, length };
                    let step = self.update(&cand, l);
                    proof {
                        lemma_offered_le(start.id, start.targets, prev, cand, l as nat);
                        lemma_entries_le_trans(self@.entries, prev, start.entries, start.targets, l as nat);
                    }
                    changed = changed || step;
                },
                None => {},
            }
            i = i + 1;
        }
        proof {
            assert(chains@.take(i as int) =~= chains@);
        }
        changed
    }

    /// Takes in every route that `other` holds, as `update_by_chains` does.
    /// Returns whether the table changed.
    pub fn update_by_fingers(&mut self, other: &NodeFingers, extra_hops: usize, l: usize) -> (r:
        bool)
        requires
            old(self)@.wf(),
            l < 64,
        ensures
            final(self)@.wf(),
            final(self)@.id == old(self)@.id,
            final(self)@.targets == old(self)@.targets,
            final(self)@.entries == absorbed(
                old(self)@.id,
                old(self)@.targets,
                old(self)@.entries,
                known(other@.entries),
                extra_hops as int,
                l as nat,
            ),
            r == (final(self)@.entries != old(self)@.entries),
    {
        let chains = other.all_schains();
        self.update_by_chains(&chains, extra_hops, l)
    }
}

} // verus!
