use net_coords::chord::{add_id_to_chain, verify_chain};
use net_coords::ids_chain::ids_chain;
use net_coords::network::Network;

#[test]
fn test_inner_lexicographic() {
    // Make sure that vectors participate inside
    // lexicographic comparison.
    let d = (1, 2, vec![3, 6]);
    let a = (1, 2, vec![3, 4]);
    let b = (1, 2, vec![3, 5]);
    let c = (1, 2, vec![3, 6]);

    assert!(a < b);
    assert!(a < c);
    assert!(a < d);

    let aa = (1, 2, vec![4, 4]);
    assert!(aa > a);

    let m = (5, 2, vec![1, 1]);
    assert!(m > a);
}

#[test]
fn test_add_id_to_chain_basic() {
    let mut chain = vec![1, 2, 3, 4, 5];
    add_id_to_chain(&mut chain, 3);
    assert!(chain == vec![1, 2, 3]);

    let mut chain = vec![1, 2, 3];
    add_id_to_chain(&mut chain, 3);
    assert!(chain == vec![1, 2, 3]);

    let mut chain = vec![1, 2, 3];
    add_id_to_chain(&mut chain, 4);
    assert!(chain == vec![1, 2, 3, 4]);

    let mut chain = vec![1, 2, 3];
    add_id_to_chain(&mut chain, 1);
    assert!(chain == vec![1]);

    let mut chain = vec![1, 2];
    add_id_to_chain(&mut chain, 1);
    assert!(chain == vec![1]);

    let mut chain = vec![1];
    add_id_to_chain(&mut chain, 1);
    assert!(chain == vec![1]);
}

#[test]
fn add_id_to_empty_chain() {
    let mut chain = vec![];
    add_id_to_chain(&mut chain, 7);
    assert_eq!(chain, vec![7]);
}

#[test]
fn ids_chain_walks_clockwise_by_powers_of_two() {
    // distance 13 = 8 + 4 + 1
    assert_eq!(ids_chain(2, 15, 6), vec![2, 10, 14, 15]);
    // wraps around: distance from 60 to 3 is 7 = 4 + 2 + 1
    assert_eq!(ids_chain(60, 3, 6), vec![60, 0, 2, 3]);
    assert_eq!(ids_chain(5, 5, 6), vec![5]);
    assert_eq!(ids_chain(0, 32, 6), vec![0, 32]);
}

#[test]
fn verify_chain_follows_edges() {
    let mut net = Network::new();
    net.add_node(10);
    net.add_node(20);
    net.add_node(30);
    net.add_edge(0, 1);
    net.add_edge(1, 2);
    assert!(verify_chain(&vec![10, 20, 30], &net));
    assert!(verify_chain(&vec![30, 20], &net));
    assert!(!verify_chain(&vec![10, 30], &net));
    assert!(verify_chain(&vec![20], &net));
}
