use wordsolve::score::entropy_weight_exec;
use wordsolve::score::log2_fixed_exec;

#[test]
fn log2_fixed_exact_on_powers_of_two() {
    assert_eq!(log2_fixed_exec(1), 0);
    assert_eq!(log2_fixed_exec(2), 65536);
    assert_eq!(log2_fixed_exec(4), 131072);
    assert_eq!(log2_fixed_exec(1024), 10 * 65536);
    assert_eq!(log2_fixed_exec(2147483648), 31 * 65536);
}

#[test]
fn log2_fixed_fractional_values() {
    assert_eq!(log2_fixed_exec(3), 103872);
    assert_eq!(log2_fixed_exec(5), 152169);
    assert_eq!(log2_fixed_exec(6), 169408);
    assert_eq!(log2_fixed_exec(10), 217705);
    assert_eq!(log2_fixed_exec(243), 519360);
}

#[test]
fn log2_fixed_is_monotone_on_samples() {
    let mut last = 0;
    for k in 1..2000u64 {
        let v = log2_fixed_exec(k);
        assert!(v >= last);
        last = v;
    }
}

#[test]
fn entropy_weight_of_even_split() {
    // two buckets of one candidate each, out of two: each weighs log2(2)
    assert_eq!(entropy_weight_exec(1, 2), 65536);
    // a single full bucket carries no information
    assert_eq!(entropy_weight_exec(2, 2), 0);
    assert_eq!(entropy_weight_exec(7, 7), 0);
}
