use net_coords::chord::{converge_fingers, create_semi_routes, find_path, init_fingers};
use net_coords::network_gen::{random_grid2_net_chord, random_net_chord};
use rand::rngs::StdRng;
use rand::SeedableRng;

fn seeded_rng() -> StdRng {
    let mut seed = [0u8; 32];
    seed[..5].copy_from_slice(&[1, 2, 3, 4, 9]);
    StdRng::from_seed(seed)
}

#[test]
fn test_random_net_chord() {
    let mut rng = seeded_rng();
    let num_nodes = 5;
    let num_neighbors = 2;
    let l: usize = 6; // Size of keyspace
    let net = random_net_chord(num_nodes, num_neighbors, l, &mut rng);
    assert_eq!(net.node_count(), num_nodes);
    for v in 0..num_nodes - 1 {
        assert!(net.contains_edge(v, v + 1));
    }
    for i in 0..num_nodes {
        assert!(net.index_to_node(i).unwrap() < 64);
    }
}

#[test]
fn test_random_grid2_net_chord() {
    let mut rng = seeded_rng();
    let k = 5; // 5 X 5 grid
    let l: usize = 6; // Size of keyspace
    let net = random_grid2_net_chord(k, l, &mut rng);
    assert_eq!(net.node_count(), 25);
    assert!(net.contains_edge(0, 1));
    assert!(net.contains_edge(0, 5));
    assert!(!net.contains_edge(4, 5));
    assert_eq!(net.neighbors(12).len(), 4);
    assert_eq!(net.neighbors(0).len(), 2);
}

#[test]
fn test_chord_basic() {
    let mut rng = seeded_rng();
    let num_nodes = 5;
    let num_neighbors = 2;
    let l: usize = 6; // Size of keyspace
    let net = random_net_chord(num_nodes, num_neighbors, l, &mut rng);
    let mut fingers = init_fingers(&net, l, &mut rng);
    converge_fingers(&net, &mut fingers, l, 100);
    let semi_routes = create_semi_routes(&net, &fingers);

    for index_a in 0..num_nodes {
        for index_b in index_a + 1..num_nodes {
            // Try to find a path:
            let src_id = net.index_to_node(index_a).unwrap();
            let dst_id = net.index_to_node(index_b).unwrap();
            find_path(src_id, dst_id, &net, &semi_routes).unwrap();
        }
    }
}

#[test]
fn grid_routes_between_all_pairs() {
    let mut rng = StdRng::seed_from_u64(21);
    let k = 4;
    let l: usize = 8;
    let net = random_grid2_net_chord(k, l, &mut rng);
    let mut fingers = init_fingers(&net, l, &mut rng);
    assert!(converge_fingers(&net, &mut fingers, l, 100).is_some());
    let semi_routes = create_semi_routes(&net, &fingers);
    for a in 0..k * k {
        for b in 0..k * k {
            let src = net.index_to_node(a).unwrap();
            let dst = net.index_to_node(b).unwrap();
            let found = find_path(src, dst, &net, &semi_routes).unwrap();
            let (ax, ay, bx, by) = (a / k, a % k, b / k, b % k);
            let manhattan = ax.abs_diff(bx) + ay.abs_diff(by);
            assert!(found >= manhattan);
        }
    }
}
