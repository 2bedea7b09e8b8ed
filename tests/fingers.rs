use net_coords::node_fingers::{NodeFingers, SemiChain};
use net_coords::semi_routes_array::SemiRoutesArray;

#[test]
fn update_keeps_the_nearest_then_shortest() {
    let l = 6;
    let mut nf = NodeFingers::new(0, &vec![10], &vec![20]);
    assert!(nf.update(&SemiChain { final_id: 15, length: 3 }, l));
    assert_eq!(nf.entry(0), Some(SemiChain { final_id: 15, length: 3 }));
    assert_eq!(nf.entry(1), Some(SemiChain { final_id: 15, length: 3 }));
    // 12 is 2 after target 10 (15 is 5 after it) and 56 after target 20 (15 is 59).
    assert!(nf.update(&SemiChain { final_id: 12, length: 5 }, l));
    assert_eq!(nf.entry(0), Some(SemiChain { final_id: 12, length: 5 }));
    assert_eq!(nf.entry(1), Some(SemiChain { final_id: 12, length: 5 }));
    // 25 is 5 after target 20, but 15 after target 10.
    assert!(nf.update(&SemiChain { final_id: 25, length: 9 }, l));
    assert_eq!(nf.entry(0), Some(SemiChain { final_id: 12, length: 5 }));
    assert_eq!(nf.entry(1), Some(SemiChain { final_id: 25, length: 9 }));
    // Same end, fewer hops.
    assert!(nf.update(&SemiChain { final_id: 12, length: 2 }, l));
    assert_eq!(nf.entry(0), Some(SemiChain { final_id: 12, length: 2 }));
    // Nothing better.
    assert!(!nf.update(&SemiChain { final_id: 12, length: 2 }, l));
    assert!(!nf.update(&SemiChain { final_id: 13, length: 1 }, l));
    assert_eq!(nf.all_schains(), vec![
        SemiChain { final_id: 12, length: 2 },
        SemiChain { final_id: 25, length: 9 },
    ]);
}

#[test]
fn update_refuses_a_route_to_the_owner() {
    let mut nf = NodeFingers::new(7, &vec![6], &vec![8, 9]);
    assert!(!nf.update(&SemiChain { final_id: 7, length: 1 }, 6));
    assert_eq!(nf.all_schains(), vec![]);
}

#[test]
fn update_by_fingers_adds_hops() {
    let l = 6;
    let mut other = NodeFingers::new(30, &vec![29], &vec![]);
    other.update(&SemiChain { final_id: 40, length: 2 }, l);
    let mut nf = NodeFingers::new(0, &vec![35], &vec![]);
    assert!(nf.update_by_fingers(&other, 3, l));
    assert_eq!(nf.all_schains(), vec![SemiChain { final_id: 40, length: 5 }]);
    assert!(!nf.update_by_fingers(&other, 3, l));
}

#[test]
fn closest_left_prefers_nearest_before_then_shortest() {
    let mut idx = SemiRoutesArray::new();
    assert_eq!(idx.find_closest_left(5), None);
    idx.insert_sroute(SemiChain { final_id: 50, length: 1 });
    idx.insert_sroute(SemiChain { final_id: 3, length: 4 });
    idx.insert_sroute(SemiChain { final_id: 3, length: 2 });
    idx.insert_sroute(SemiChain { final_id: 6, length: 1 });
    assert_eq!(idx.find_closest_left(5), Some(SemiChain { final_id: 3, length: 2 }));
    assert_eq!(idx.find_closest_left(6), Some(SemiChain { final_id: 6, length: 1 }));
    assert_eq!(idx.find_closest_left(51), Some(SemiChain { final_id: 50, length: 1 }));
    assert_eq!(idx.find_closest_left(1), Some(SemiChain { final_id: 50, length: 1 }));
}
