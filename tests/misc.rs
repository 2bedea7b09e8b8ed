use net_coords::coupons::Coupons;
use net_coords::towers::init_towers_info;
use rand::rngs::StdRng;
use rand::SeedableRng;

#[test]
fn coupons_start_uncollected() {
    let c = Coupons::new(3);
    assert!(!c.is_done());
    assert!(Coupons::new(0).is_done());
}

#[test]
fn coupons_collect_until_done() {
    let mut c = Coupons::new(3);
    assert!(!c.collect(&vec![0, 2, 0]));
    assert!(c.collect(&vec![1]));
    assert!(c.is_done());
}

#[test]
fn batch_coupons_eventually_completes() {
    let mut rng = StdRng::seed_from_u64(11);
    let mut c = Coupons::new(4);
    let mut rounds = 0;
    while !c.batch_coupons(1, &mut rng) {
        rounds += 1;
        assert!(rounds < 10_000);
    }
    assert!(c.is_done());
}

#[test]
fn towers_info_starts_empty() {
    let t = init_towers_info(3, 2, 4);
    assert_eq!(t.len(), 3);
    for node in &t {
        assert_eq!(node.len(), 2);
        for color in node {
            assert_eq!(color.len(), 4);
            assert!(color.iter().all(|x| x.is_none()));
        }
    }
}
