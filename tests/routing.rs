use net_coords::chord::{converge_fingers, create_semi_routes, find_path, init_fingers, iter_fingers};
use net_coords::ring::vdist;
use net_coords::network::Network;
use net_coords::node_fingers::{NodeFingers, SemiChain};
use rand::rngs::StdRng;
use rand::SeedableRng;

fn chain_net(keys: &[u64]) -> Network {
    let mut net = Network::new();
    for &k in keys {
        net.add_node(k);
    }
    for i in 1..keys.len() {
        net.add_edge(i - 1, i);
    }
    net
}

fn snapshot(fingers: &[NodeFingers]) -> Vec<(u64, Vec<u64>, Vec<Option<SemiChain>>)> {
    fingers
        .iter()
        .map(|f| {
            let targets = f.target_ids().clone();
            let entries = (0..targets.len()).map(|k| f.entry(k)).collect();
            (f.id(), targets, entries)
        })
        .collect()
}

#[test]
fn chain_of_five_routes_along_graph_distance() {
    let keys = [17u64, 3, 42, 60, 29];
    let l = 6;
    let net = chain_net(&keys);
    let mut rng = StdRng::seed_from_u64(9);
    let mut fingers = init_fingers(&net, l, &mut rng);
    let sweeps = converge_fingers(&net, &mut fingers, l, 100);
    assert!(sweeps.is_some());
    let routes = create_semi_routes(&net, &fingers);
    for a in 0..keys.len() {
        for b in 0..keys.len() {
            let found = find_path(keys[a], keys[b], &net, &routes);
            let expected = if a > b { a - b } else { b - a };
            assert_eq!(found, Some(expected), "from {} to {}", keys[a], keys[b]);
        }
    }
}

#[test]
fn convergence_takes_at_most_node_count_sweeps() {
    let keys = [17u64, 3, 42, 60, 29];
    let l = 6;
    let net = chain_net(&keys);
    let mut rng = StdRng::seed_from_u64(1);
    let mut fingers = init_fingers(&net, l, &mut rng);
    let sweeps = converge_fingers(&net, &mut fingers, l, 100).unwrap();
    assert!(sweeps >= 1);
    assert!(sweeps <= keys.len());
}

#[test]
fn isolated_node_finds_no_path() {
    let net = chain_net(&[21]);
    let l = 6;
    let mut rng = StdRng::seed_from_u64(3);
    let mut fingers = init_fingers(&net, l, &mut rng);
    assert_eq!(converge_fingers(&net, &mut fingers, l, 10), Some(1));
    let routes = create_semi_routes(&net, &fingers);
    for dst in [0u64, 5, 22, 63] {
        assert_eq!(find_path(21, dst, &net, &routes), None);
    }
    assert_eq!(find_path(21, 21, &net, &routes), Some(0));
}

#[test]
fn disjoint_chains_find_no_path_across() {
    let l = 6;
    let left = [5u64, 40, 12];
    let right = [33u64, 1, 58];
    let mut net = Network::new();
    for &k in left.iter().chain(right.iter()) {
        net.add_node(k);
    }
    net.add_edge(0, 1);
    net.add_edge(1, 2);
    net.add_edge(3, 4);
    net.add_edge(4, 5);
    let mut rng = StdRng::seed_from_u64(4);
    let mut fingers = init_fingers(&net, l, &mut rng);
    assert!(converge_fingers(&net, &mut fingers, l, 100).is_some());
    let routes = create_semi_routes(&net, &fingers);
    for &a in &left {
        for &b in &right {
            assert_eq!(find_path(a, b, &net, &routes), None);
            assert_eq!(find_path(b, a, &net, &routes), None);
        }
    }
}

#[test]
fn same_seed_gives_same_tables() {
    let keys = [11u64, 50, 7, 33, 62, 20];
    let l = 6;
    let mut net = chain_net(&keys);
    net.add_edge(0, 3);
    net.add_edge(2, 5);
    let mut rng_a = StdRng::seed_from_u64(77);
    let mut fa = init_fingers(&net, l, &mut rng_a);
    converge_fingers(&net, &mut fa, l, 100);
    let mut rng_b = StdRng::seed_from_u64(77);
    let mut fb = init_fingers(&net, l, &mut rng_b);
    converge_fingers(&net, &mut fb, l, 100);
    assert_eq!(snapshot(&fa), snapshot(&fb));
}

#[test]
fn single_edge_seeds_both_ends() {
    let l = 6;
    let net = chain_net(&[8, 44]);
    let mut rng = StdRng::seed_from_u64(5);
    let mut fingers = init_fingers(&net, l, &mut rng);
    // No sweep at all: only the seeding.
    assert_eq!(converge_fingers(&net, &mut fingers, l, 0), None);
    assert!(fingers[0].all_schains().contains(&SemiChain { final_id: 44, length: 1 }));
    assert!(fingers[1].all_schains().contains(&SemiChain { final_id: 8, length: 1 }));
}

#[test]
fn no_entry_leads_back_to_its_owner() {
    let keys = [17u64, 3, 42, 60, 29];
    let l = 6;
    let mut net = chain_net(&keys);
    net.add_edge(0, 4);
    let mut rng = StdRng::seed_from_u64(2);
    let mut fingers = init_fingers(&net, l, &mut rng);
    converge_fingers(&net, &mut fingers, l, 100);
    for f in &fingers {
        for c in f.all_schains() {
            assert_ne!(c.final_id, f.id());
            assert!(c.length >= 1);
        }
    }
}

#[test]
fn targets_of_a_fresh_table() {
    let l = 6;
    let net = chain_net(&[10, 13]);
    let mut rng = StdRng::seed_from_u64(6);
    let fingers = init_fingers(&net, l, &mut rng);
    let t = fingers[0].target_ids();
    // predecessor, then x + 2^i and x - 2^i
    assert_eq!(&t[0..5], &[9, 11, 9, 12, 8]);
    // chain toward the neighbor 13: 10, 12, 13
    assert_eq!(&t[13..16], &[10, 12, 13]);
    assert_eq!(t.len(), 1 + 12 + 3 + 12);
    for i in 0..6 {
        let v = t[16 + i];
        assert!(v >= 1 << i && v < 2 << i);
    }
    for i in 0..6 {
        assert!(t[22 + i] < 64);
    }
    for k in 0..t.len() {
        assert_eq!(fingers[0].entry(k), None);
    }
}

#[test]
fn random_targets_are_drawn_across_their_ranges() {
    let l = 10;
    let net = chain_net(&[100, 900]);
    let mut rng = StdRng::seed_from_u64(8);
    let fingers = init_fingers(&net, l, &mut rng);
    let t = fingers[0].target_ids();
    let start = t.len() - 2 * l;
    let stratified = &t[start..start + l];
    let uniform = &t[start + l..];
    for (i, &v) in stratified.iter().enumerate() {
        assert!(v >= 1 << i && v < 2 << i);
    }
    assert!(stratified.iter().enumerate().any(|(i, &v)| v != 1 << i));
    assert!(uniform.iter().all(|&v| v < 1024));
    assert!(uniform.iter().any(|&v| v != 0));
}

#[test]
fn sweeps_never_make_an_entry_worse() {
    let keys = [17u64, 3, 42, 60, 29, 8];
    let l = 6;
    let mut net = chain_net(&keys);
    net.add_edge(1, 4);
    let mut rng = StdRng::seed_from_u64(12);
    let mut fingers = init_fingers(&net, l, &mut rng);
    converge_fingers(&net, &mut fingers, l, 0);
    let rank = |f: &NodeFingers, k: usize| {
        f.entry(k).map(|c| (vdist(f.target_ids()[k], c.final_id, l), c.length, c.final_id))
    };
    for _ in 0..20 {
        let before: Vec<Vec<_>> = fingers
            .iter()
            .map(|f| (0..f.target_ids().len()).map(|k| rank(f, k)).collect())
            .collect();
        let changed = iter_fingers(&net, &mut fingers, l);
        for (i, f) in fingers.iter().enumerate() {
            for k in 0..f.target_ids().len() {
                match (before[i][k], rank(f, k)) {
                    (Some(old), Some(new)) => assert!(new <= old),
                    (Some(_), None) => panic!("entry lost"),
                    _ => {}
                }
            }
        }
        if !changed {
            break;
        }
    }
}
