use qft_lab::divisors::gcd;

#[test]
fn gcd_of_two_numbers() {
    assert_eq!(gcd(12, 18), 6);
    assert_eq!(gcd(18, 12), 6);
    assert_eq!(gcd(17, 5), 1);
}

#[test]
fn gcd_with_zero() {
    assert_eq!(gcd(7, 0), 7);
    assert_eq!(gcd(0, 7), 7);
    assert_eq!(gcd(0, 0), 0);
}

#[test]
fn gcd_divides_both_and_is_the_greatest() {
    for a in 0..40u64 {
        for b in 0..40u64 {
            let g = gcd(a, b);
            if g == 0 {
                assert_eq!((a, b), (0, 0));
                continue;
            }
            assert_eq!(a % g, 0);
            assert_eq!(b % g, 0);
            for d in 1..=40u64 {
                if a % d == 0 && b % d == 0 {
                    assert_eq!(g % d, 0);
                }
            }
        }
    }
}

#[test]
fn gcd_of_large_numbers() {
    assert_eq!(gcd(u64::MAX, u64::MAX), u64::MAX);
    assert_eq!(gcd(u64::MAX, u64::MAX - 1), 1);
    assert_eq!(gcd(1 << 63, 1 << 40), 1 << 40);
    assert_eq!(gcd(297, 356), 1);
    assert_eq!(gcd(297, 216), 27);
}
