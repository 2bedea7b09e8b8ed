use net_coords::approx_funcs::approx_size_harmonic;

#[test]
fn test_approx_size_harmonic() {
    let mins = &[111, 222, 333, 4, 555];
    approx_size_harmonic(mins);
}

#[test]
fn harmonic_estimate_of_equal_minima() {
    let m = 1u64 << 62;
    assert_eq!(approx_size_harmonic(&[m, m]), 2);
}

#[test]
fn harmonic_estimate_is_zero_without_minima_or_with_the_largest() {
    assert_eq!(approx_size_harmonic(&[]), 0);
    assert_eq!(approx_size_harmonic(&[5, u64::MAX]), 0);
}

#[test]
fn harmonic_estimate_of_five_minima() {
    assert_eq!(approx_size_harmonic(&[111, 222, 333, 4, 555]), 75292832953916537);
}
