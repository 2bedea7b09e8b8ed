use net_coords::ring::{add_cyc, pow2_u64, vdist};

#[test]
fn test_d() {
    let l = 42;
    assert!(vdist(1u64, 2, l) == 1);
    assert!(vdist(1u64, 101, l) == 100);
    assert!(vdist(2_u64.pow(l as u32) - 1, 1, l) == 2);
    assert!(vdist(2_u64.pow(l as u32) - 1, 0, l) == 1);
    assert!(vdist(1, 0, l) == 2_u64.pow(l as u32) - 1);
}

#[test]
fn test_add_cyc() {
    // Check add:
    assert!(add_cyc(0, 1, 5) == 1);
    assert!(add_cyc(1, 1, 5) == 2);
    assert!(add_cyc(30, 1, 5) == 31);
    assert!(add_cyc(31, 1, 5) == 0);

    // Check sub:
    assert!(add_cyc(2, -1, 5) == 1);
    assert!(add_cyc(1, -1, 5) == 0);
    assert!(add_cyc(0, -1, 5) == 31);
    assert!(add_cyc(31, -1, 30) == 30);
}

#[test]
fn distances_in_both_directions_make_a_full_turn() {
    let l = 6;
    let size = 64u64;
    for &(x, y) in &[(0u64, 0u64), (3, 17), (60, 2), (63, 0), (5, 5)] {
        let s = vdist(x, y, l) + vdist(y, x, l);
        assert_eq!(s % size, 0);
    }
    assert_eq!(vdist(9, 9, l), 0);
    assert_eq!(vdist(3, 17, l), 14);
    assert_eq!(vdist(17, 3, l), 50);
}

#[test]
fn offset_forward_then_back_returns() {
    let l = 6;
    for x in 0..64u64 {
        for d in 0..6u32 {
            let p = 2i64.pow(d);
            assert_eq!(add_cyc(add_cyc(x, p, l), -p, l), x);
        }
    }
}

#[test]
fn distance_reduces_keys_above_the_ring() {
    assert_eq!(vdist(0, 70, 6), 6);
    assert_eq!(add_cyc(100, 0, 6), 36);
}

#[test]
fn powers_of_two() {
    assert_eq!(pow2_u64(0), 1);
    assert_eq!(pow2_u64(10), 1024);
    assert_eq!(pow2_u64(63), 1u64 << 63);
}
