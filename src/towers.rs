//! What nodes know of nearby towers: for each color, the closest tower of
//! each index, through which neighbor it is reached and how far it is.

use vstd::prelude::*;

verus! {

/// A node's knowledge of one local tower.
#[derive(Clone, Copy, Debug, PartialEq, Eq, Structural)]
pub struct LocalTowerInfo {
    pub gateway: usize,
    pub distance: u64,
    pub tower_node: usize,
}

/// Knowledge of towers, by node, then color, then tower index.
pub type TowersInfo = Vec<Vec<Vec<Option<LocalTowerInfo>>>>;

/// Empty knowledge for `num_nodes` nodes, `num_colors` colors and
/// `num_towers` towers of each color.
pub fn init_towers_info(num_nodes: usize, num_colors: usize, num_towers: usize) -> (r: TowersInfo)
    ensures
        r@.len() == num_nodes,
        forall|i: int|
            0 <= i < num_nodes ==> (#[trigger] r@[i])@.len() == num_colors && forall|c: int|
                0 <= c < num_colors ==> (#[trigger] r@[i]@[c])@ == Seq::new(
                    num_towers as nat,
                    |t: int| None::<LocalTowerInfo>,
                ),
{
    let mut towers_info: TowersInfo = Vec::new();
    let mut i: usize = 0;
    while i < num_nodes
        invariant
            i <= num_nodes,
            towers_info@.len() == i,
            forall|a: int|
                0 <= a < i ==> (#[trigger] towers_info@[a])@.len() == num_colors && forall|c: int|
                    0 <= c < num_colors ==> (#[trigger] towers_info@[a]@[c])@ == Seq::new(
                        num_towers as nat,
                        |t: int| None::<LocalTowerInfo>,
                    ),
        decreases num_nodes - i,
    {
        let mut colors: Vec<Vec<Option<LocalTowerInfo>>> = Vec::new();
        let mut color: usize = 0;
        while color < num_colors
            invariant
                color <= num_colors,
                colors@.len() == color,
                forall|c: int|
                    0 <= c < color ==> (#[trigger] colors@[c])@ == Seq::new(
                        num_towers as nat,
                        |t: int| None::<LocalTowerInfo>,
                    ),
            decreases num_colors - color,
        {
            let mut towers: Vec<Option<LocalTowerInfo>> = Vec::new();
            let mut tower_index: usize = 0;
            while tower_index < num_towers
                invariant
                    tower_index <= num_towers,
                    towers@ == Seq::new(tower_index as nat, |t: int| None::<LocalTowerInfo>),
                decreases num_towers - tower_index,
            {
                towers.push(None);
                tower_index = tower_index + 1;
                proof {
                    assert(towers@ =~= Seq::new(tower_index as nat, |t: int| None::<LocalTowerInfo>));
                }
            }
            colors.push(towers);
            color = color + 1;
        }
        towers_info.push(colors);
        i = i + 1;
    }
    towers_info
}

} // verus!
