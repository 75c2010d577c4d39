use cfft::math::{good_size, largest_prime_factor, prime_factors};

#[test]
fn largest_prime_factor_of_small_numbers() {
    assert_eq!(largest_prime_factor(0), 1);
    assert_eq!(largest_prime_factor(1), 1);
    assert_eq!(largest_prime_factor(2), 2);
    assert_eq!(largest_prime_factor(3), 3);
    assert_eq!(largest_prime_factor(4), 2);
    assert_eq!(largest_prime_factor(12), 3);
    assert_eq!(largest_prime_factor(49), 7);
    assert_eq!(largest_prime_factor(997), 997);
    assert_eq!(largest_prime_factor(2 * 3 * 5 * 7 * 11 * 13), 13);
}

#[test]
fn good_size_keeps_lengths_up_to_six() {
    for n in 0..=6usize {
        assert_eq!(good_size(n), n);
    }
}

#[test]
fn good_size_finds_the_next_smooth_length() {
    assert_eq!(good_size(7), 7);
    assert_eq!(good_size(13), 14);
    assert_eq!(good_size(17), 18);
    assert_eq!(good_size(23), 24);
    assert_eq!(good_size(1993), 2000);
    assert_eq!(good_size(1025), 1029);
}

#[test]
fn prime_factors_are_listed_in_ascending_order() {
    assert_eq!(prime_factors(0), Vec::<usize>::new());
    assert_eq!(prime_factors(1), Vec::<usize>::new());
    assert_eq!(prime_factors(360), vec![2, 2, 2, 3, 3, 5]);
    assert_eq!(prime_factors(997), vec![997]);
    assert_eq!(prime_factors(169), vec![13, 13]);
}

fn is_smooth(mut m: usize) -> bool {
    if m == 0 {
        return false;
    }
    for p in [2usize, 3, 5, 7, 11] {
        while m % p == 0 {
            m /= p;
        }
    }
    m == 1
}

#[test]
fn good_size_is_the_least_smooth_length() {
    for n in 1..6000usize {
        let size = good_size(n);
        assert!(size >= n);
        assert!(is_smooth(size));
        assert!(largest_prime_factor(size) <= 11);
        assert!((n..size).all(|m| !is_smooth(m)));
    }
}

#[test]
fn good_size_of_large_lengths() {
    assert_eq!(good_size(1_000_003), 1_000_188);
    assert_eq!(good_size(1 << 40), 1 << 40);
    assert_eq!(good_size((1 << 40) + 1), 1_099_535_990_784);
    assert_eq!(good_size(usize::MAX / 2), 9_223_372_036_854_775_808);
}

#[test]
fn largest_prime_factor_divides_and_is_prime() {
    for n in 2..3000usize {
        let p = largest_prime_factor(n);
        assert_eq!(n % p, 0);
        assert!((2..p).all(|d| p % d != 0));
        assert_eq!(*prime_factors(n).last().unwrap(), p);
    }
}

#[test]
fn largest_prime_factor_of_large_numbers() {
    assert_eq!(largest_prime_factor(1 << 62), 2);
    assert_eq!(largest_prime_factor(4_294_967_291), 4_294_967_291);
    assert_eq!(largest_prime_factor(4_294_967_291 * 3), 4_294_967_291);
    assert_eq!(largest_prime_factor(999_983 * 999_979), 999_983);
}

#[test]
fn prime_factors_multiply_to_the_number() {
    for n in 1..3000usize {
        let factors = prime_factors(n);
        assert_eq!(factors.iter().product::<usize>(), n);
        assert!(factors.windows(2).all(|pair| pair[0] <= pair[1]));
        assert!(factors.iter().all(|&p| (2..p).all(|d| p % d != 0)));
    }
}
