use ropekit::primes::{
    ceil_sqrt, floor_sqrt, is_prime, prime_factors_big, segmented_sieve, segmented_sieve_bool,
    segmented_sieve_till, sieve, sieve_bool,
};

#[test]
fn sieve_bool_test() {
    let pb = sieve_bool(100);
    let p_to_100 = vec![
        2, 3, 5, 7, 11, 13, 17, 19, 23, 29, 31, 37, 41, 43, 47, 53, 59, 61, 67, 71, 73, 79, 83,
        89, 97,
    ];
    let mut i = 0;
    for j in 0..=100 {
        if i < 25 && j == p_to_100[i] {
            if !pb.get(j) {
                println!("fail at {} (not present)", j);
            }
            assert!(pb.get(j));
            i += 1;
        } else {
            if pb.get(j) {
                println!("fail at {} (present but shouldnt be)", j);
            }
            assert!(!pb.get(j));
        }
    }
}

#[test]
fn sieve_test() {
    let primes = sieve(10);
    for i in primes.iter() {
        println!("{} ", i);
    }
    let p_to_10 = vec![2, 3, 5, 7];
    assert!(primes == p_to_10);
    let primes = sieve(100);
    let p_to_100 = vec![
        2, 3, 5, 7, 11, 13, 17, 19, 23, 29, 31, 37, 41, 43, 47, 53, 59, 61, 67, 71, 73, 79, 83,
        89, 97,
    ];
    for i in primes.iter() {
        println!("{} ", i);
    }
    println!("");
    for i in p_to_100.iter() {
        println!("{} ", i);
    }
    println!("");
    assert!(primes == p_to_100);
}

#[test]
fn seg_sieve_simple_test() {
    let primes = segmented_sieve(12, 100);
    let p_to_100 = vec![
        13, 17, 19, 23, 29, 31, 37, 41, 43, 47, 53, 59, 61, 67, 71, 73, 79, 83, 89, 97,
    ];
    for i in primes.iter() {
        println!("{} ", i);
    }
    println!("");
    for i in p_to_100.iter() {
        println!("{} ", i);
    }
    println!("");
    assert!(primes == p_to_100);
}

#[test]
fn seg_sieve_complex_test() {
    let primes = segmented_sieve(500, 1000);
    let p_500_to_1000 = vec![
        503, 509, 521, 523, 541, 547, 557, 563, 569, 571, 577, 587, 593, 599, 601, 607, 613,
        617, 619, 631, 641, 643, 647, 653, 659, 661, 673, 677, 683, 691, 701, 709, 719, 727,
        733, 739, 743, 751, 757, 761, 769, 773, 787, 797, 809, 811, 821, 823, 827, 829, 839,
        853, 857, 859, 863, 877, 881, 883, 887, 907, 911, 919, 929, 937, 941, 947, 953, 967,
        971, 977, 983, 991, 997,
    ];
    assert!(primes == p_500_to_1000);
}

#[test]
fn sieve_2000000_test() {
    let a = sieve(2000000);
    let b = segmented_sieve(0, 2000000);
    for (x, y) in a.iter().zip(b.iter()) {
        println!("{} vs {}", x, y);
        assert!(x == y);
    }
}

#[test]
fn sieve_of_small_bounds() {
    assert_eq!(sieve(0), Vec::<usize>::new());
    assert_eq!(sieve(1), Vec::<usize>::new());
    assert_eq!(sieve(2), vec![2]);
    assert_eq!(sieve(3), vec![2, 3]);
    assert_eq!(sieve(4), vec![2, 3]);
    assert_eq!(sieve(5), vec![2, 3, 5]);
}

#[test]
fn sieve_bool_of_small_bounds() {
    let b = sieve_bool(0);
    assert_eq!(b.len(), 1);
    assert!(!b.get(0));
    let b = sieve_bool(2);
    assert_eq!(b.len(), 3);
    assert!(!b.get(0));
    assert!(!b.get(1));
    assert!(b.get(2));
}

#[test]
fn is_prime_agrees_with_sieve() {
    let b = sieve_bool(2000);
    for k in 0..=2000 {
        assert_eq!(is_prime(k), b.get(k), "at {}", k);
    }
}

#[test]
fn is_prime_rejects_squares_of_primes() {
    assert!(!is_prime(0));
    assert!(!is_prime(1));
    assert!(is_prime(2));
    assert!(is_prime(3));
    assert!(!is_prime(4));
    assert!(!is_prime(9));
    assert!(!is_prime(25));
    assert!(!is_prime(49));
    assert!(is_prime(7919));
    assert!(!is_prime(7917));
}

#[test]
fn segmented_sieve_bool_is_offset_by_low_end() {
    let b = segmented_sieve_bool(10, 20);
    assert_eq!(b.len(), 11);
    let expected = [false, true, false, true, false, false, false, true, false, true, false];
    for (j, e) in expected.iter().enumerate() {
        assert_eq!(b.get(j), *e, "at {}", 10 + j);
    }
}

#[test]
fn segmented_sieve_from_zero_and_one() {
    assert_eq!(segmented_sieve(0, 0), Vec::<usize>::new());
    assert_eq!(segmented_sieve(0, 1), Vec::<usize>::new());
    assert_eq!(segmented_sieve(1, 1), Vec::<usize>::new());
    assert_eq!(segmented_sieve(0, 2), vec![2]);
    assert_eq!(segmented_sieve(2, 2), vec![2]);
    assert_eq!(segmented_sieve(2, 3), vec![2, 3]);
    assert_eq!(segmented_sieve(3, 4), vec![3]);
    assert_eq!(segmented_sieve(4, 4), Vec::<usize>::new());
    assert_eq!(segmented_sieve(7, 7), vec![7]);
    assert_eq!(segmented_sieve(24, 28), Vec::<usize>::new());
}

#[test]
fn segmented_sieve_of_an_empty_window() {
    assert_eq!(segmented_sieve_bool(5, 4).len(), 0);
    assert_eq!(segmented_sieve(5, 4), Vec::<usize>::new());
    assert_eq!(segmented_sieve(1, 0), Vec::<usize>::new());
}

#[test]
fn segmented_sieve_agrees_with_sieve_on_windows() {
    let all = sieve(400);
    for lo in [0usize, 1, 2, 3, 50, 120, 399, 400] {
        for hi in [lo, lo + 1, lo + 17, 400] {
            if hi < lo {
                continue;
            }
            let want: Vec<usize> = all.iter().copied().filter(|p| lo <= *p && *p <= hi).collect();
            let got: Vec<usize> = segmented_sieve(lo, hi).into_iter().filter(|p| *p <= 400).collect();
            assert_eq!(got, want, "window {}..={}", lo, hi);
        }
    }
}

#[test]
fn segmented_sieve_till_agrees_with_sieve() {
    for n in 0..=300 {
        assert_eq!(segmented_sieve_till(n), sieve(n), "up to {}", n);
    }
    assert_eq!(segmented_sieve_till(100000), sieve(100000));
}

#[test]
fn segmented_sieve_till_small_values() {
    assert_eq!(segmented_sieve_till(0), Vec::<usize>::new());
    assert_eq!(segmented_sieve_till(1), Vec::<usize>::new());
    assert_eq!(segmented_sieve_till(2), vec![2]);
    assert_eq!(segmented_sieve_till(4), vec![2, 3]);
    assert_eq!(segmented_sieve_till(100), sieve(100));
}

#[test]
fn square_roots_round_as_named() {
    let floors = [(0, 0), (1, 1), (2, 1), (3, 1), (4, 2), (8, 2), (9, 3), (99, 9), (100, 10)];
    for (n, r) in floors {
        assert_eq!(floor_sqrt(n), r);
    }
    let ceils = [(0, 0), (1, 1), (2, 2), (3, 2), (4, 2), (5, 3), (9, 3), (10, 4), (100, 10)];
    for (n, r) in ceils {
        assert_eq!(ceil_sqrt(n), r);
    }
    assert_eq!(floor_sqrt(2000000), 1414);
    assert_eq!(ceil_sqrt(2000000), 1415);
}

#[test]
fn prime_factors_of_square_free_numbers() {
    assert_eq!(prime_factors_big(0), Vec::<usize>::new());
    assert_eq!(prime_factors_big(1), Vec::<usize>::new());
    assert_eq!(prime_factors_big(2), vec![2]);
    assert_eq!(prime_factors_big(30), vec![2, 3, 5]);
    assert_eq!(prime_factors_big(7919), vec![7919]);
    assert_eq!(prime_factors_big(2 * 3 * 5 * 7 * 11 * 13), vec![2, 3, 5, 7, 11, 13]);
}

#[test]
fn prime_factors_list_each_prime_once() {
    assert_eq!(prime_factors_big(4), vec![2]);
    assert_eq!(prime_factors_big(12), vec![2, 3]);
    assert_eq!(prime_factors_big(27), vec![3]);
    assert_eq!(prime_factors_big(360), vec![2, 3, 5]);
    assert_eq!(prime_factors_big(49), vec![7]);
}
