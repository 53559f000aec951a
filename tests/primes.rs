use prime_cache::{
    clear_prime_cache, factorize, is_prime, nth_prime, primes, primes_upto, GlobalPrimes, Primes,
};

fn dumb_prime_generator(max: u64) -> Vec<u64> {
    let mut ps = vec![];

    for candidate in 2..=max {
        if ps.iter().all(|&prime| candidate % prime != 0) {
            ps.push(candidate);
        }
    }

    ps
}

fn upto(cache: &mut GlobalPrimes, max: u64) -> Vec<u64> {
    primes_upto(max).collect(cache)
}

#[test]
fn primes_iter_01() {
    const MAX: u64 = 1000;

    let mut cache = GlobalPrimes::new();
    let ps = dumb_prime_generator(MAX);

    let mut a = Primes::new();
    let mut b = Primes::new();

    for &p in &ps {
        assert_eq!(a.next(&mut cache), Some(p));
        assert_eq!(b.next(&mut cache), Some(p));
    }

    let mut a = Primes::new();
    let mut b = Primes::new();

    for &p in &ps {
        assert_eq!(a.next(&mut cache), Some(p));
    }

    for &p in &ps {
        assert_eq!(b.next(&mut cache), Some(p));
    }
}

#[test]
fn primes_upto_01() {
    const MAX: u64 = 1000;

    let mut cache = GlobalPrimes::new();

    let ps = dumb_prime_generator(MAX);
    let a: Vec<_> = upto(&mut cache, MAX);

    assert_eq!(a, ps);

    let ps = dumb_prime_generator(101);
    let a: Vec<_> = upto(&mut cache, 101);

    assert_eq!(a, ps);

    let ps = dumb_prime_generator(100);
    let a: Vec<_> = upto(&mut cache, 100);

    assert_eq!(a, ps);
}

#[test]
fn factorize_01() {
    let mut cache = GlobalPrimes::new();
    let mut fs = vec![];
    let expected: Vec<u64> = vec![2, 3, 3, 5, 13, 101];
    let n = expected.iter().product();

    factorize(&mut cache, n, &mut fs);

    assert_eq!(fs, expected);
}

#[test]
fn factorize_02() {
    let mut cache = GlobalPrimes::new();
    let mut fs = vec![];
    let expected: Vec<u64> = vec![2, 3];
    let n = expected.iter().product();

    factorize(&mut cache, n, &mut fs);

    assert_eq!(fs, expected);
}

#[test]
fn primes_upto_matches_naive_sieve() {
    let mut cache = GlobalPrimes::new();
    for max in 0..=600u64 {
        assert_eq!(upto(&mut cache, max), dumb_prime_generator(max));
    }
    let mut fresh = GlobalPrimes::new();
    assert_eq!(upto(&mut fresh, 20_000), dumb_prime_generator(20_000));
}

#[test]
fn primes_upto_thirty() {
    let mut cache = GlobalPrimes::new();
    assert_eq!(upto(&mut cache, 30), vec![2, 3, 5, 7, 11, 13, 17, 19, 23, 29]);
}

#[test]
fn primes_upto_small_bounds() {
    let mut cache = GlobalPrimes::new();
    assert_eq!(upto(&mut cache, 2), vec![2]);
    assert_eq!(upto(&mut cache, 1), Vec::<u64>::new());
    assert_eq!(upto(&mut cache, 0), Vec::<u64>::new());
}

#[test]
fn primes_upto_stays_ended() {
    let mut cache = GlobalPrimes::new();
    let mut walk = primes_upto(10);
    assert_eq!(walk.next(&mut cache), Some(2));
    assert_eq!(walk.next(&mut cache), Some(3));
    assert_eq!(walk.next(&mut cache), Some(5));
    assert_eq!(walk.next(&mut cache), Some(7));
    assert_eq!(walk.next(&mut cache), None);
    assert_eq!(walk.next(&mut cache), None);
    assert_eq!(walk.next(&mut cache), None);
    assert_eq!(walk.collect(&mut cache), Vec::<u64>::new());
}

#[test]
fn nth_prime_values() {
    let mut cache = GlobalPrimes::new();
    assert_eq!(nth_prime(&mut cache, 0), 2);
    assert_eq!(nth_prime(&mut cache, 1), 3);
    assert_eq!(nth_prime(&mut cache, 9), 29);
    assert_eq!(nth_prime(&mut cache, 99), 541);
    assert_eq!(nth_prime(&mut cache, 2), 5);
    assert_eq!(nth_prime(&mut cache, 3), 7);
}

#[test]
fn nth_prime_agrees_with_walk() {
    let mut cache = GlobalPrimes::new();
    let mut walk = primes();
    for k in 0..2000usize {
        let p = walk.next(&mut cache);
        let mut other = GlobalPrimes::new();
        assert_eq!(p, Some(nth_prime(&mut other, k)));
        assert_eq!(p, Some(nth_prime(&mut cache, k)));
    }
}

#[test]
fn is_prime_values() {
    let mut cache = GlobalPrimes::new();
    assert!(!is_prime(&mut cache, 1));
    assert!(is_prime(&mut cache, 2));
    assert!(!is_prime(&mut cache, 91));
    assert!(is_prime(&mut cache, 97));
    assert!(!is_prime(&mut cache, 0));
    assert!(is_prime(&mut cache, 3));
    assert!(is_prime(&mut cache, 5));
    assert!(!is_prime(&mut cache, 4));
    assert!(!is_prime(&mut cache, 25));
}

#[test]
fn is_prime_agrees_with_bounded_walk() {
    let mut cache = GlobalPrimes::new();
    for n in 0..=2000u64 {
        let listed = upto(&mut cache, n).contains(&n);
        assert_eq!(is_prime(&mut cache, n), listed);
    }
}

#[test]
fn factorize_round_trip() {
    let mut cache = GlobalPrimes::new();
    let mut check = GlobalPrimes::new();
    let mut fs = vec![];
    for n in 2..=20_000u64 {
        factorize(&mut cache, n, &mut fs);
        assert!(!fs.is_empty());
        assert!(fs.windows(2).all(|w| w[0] <= w[1]));
        assert_eq!(fs.iter().product::<u64>(), n);
        for &f in &fs {
            assert!(is_prime(&mut check, f));
        }
    }
}

#[test]
fn factorize_prime_and_power() {
    let mut cache = GlobalPrimes::new();
    let mut fs = vec![7, 7, 7];
    factorize(&mut cache, 1999, &mut fs);
    assert_eq!(fs, vec![1999]);
    factorize(&mut cache, 1024, &mut fs);
    assert_eq!(fs, vec![2; 10]);
    factorize(&mut cache, 2 * 3 * 3 * 5 * 13 * 101 * 1999, &mut fs);
    assert_eq!(fs, vec![2, 3, 3, 5, 13, 101, 1999]);
}

#[test]
fn factorize_below_two() {
    let mut cache = GlobalPrimes::new();
    let mut fs = vec![4, 5];
    factorize(&mut cache, 0, &mut fs);
    assert_eq!(fs, vec![0]);
    factorize(&mut cache, 1, &mut fs);
    assert_eq!(fs, vec![1]);
}

#[test]
fn walks_are_independent() {
    let mut cache = GlobalPrimes::new();
    let mut a = primes();
    let mut b = primes();
    let mut seen_a = vec![];
    let mut seen_b = vec![];
    for i in 0..300usize {
        seen_a.push(a.next(&mut cache).unwrap());
        if i % 3 == 0 {
            seen_b.push(b.next(&mut cache).unwrap());
        }
    }
    while seen_b.len() < seen_a.len() {
        seen_b.push(b.next(&mut cache).unwrap());
    }
    assert_eq!(seen_a, seen_b);
    let mut fresh = GlobalPrimes::new();
    for (i, &p) in seen_a.iter().enumerate() {
        assert_eq!(p, nth_prime(&mut fresh, i));
    }
}

#[test]
fn clear_keeps_answers() {
    let mut cache = GlobalPrimes::new();
    assert_eq!(nth_prime(&mut cache, 500), 3581);
    clear_prime_cache(&mut cache);
    assert_eq!(cache.last_prime(), 5);
    assert_eq!(cache.len(), 3);
    assert_eq!(nth_prime(&mut cache, 4), 11);
    clear_prime_cache(&mut cache);
    let mut fresh = GlobalPrimes::new();
    assert_eq!(is_prime(&mut cache, 7919), is_prime(&mut fresh, 7919));
    assert_eq!(upto(&mut cache, 50), upto(&mut fresh, 50));
}

#[test]
fn walk_survives_clear() {
    let mut cache = GlobalPrimes::new();
    let mut walk = primes();
    for _ in 0..1000 {
        walk.next(&mut cache);
    }
    clear_prime_cache(&mut cache);
    assert_eq!(walk.next(&mut cache), Some(7927));
}

#[test]
fn cache_growth() {
    let mut cache = GlobalPrimes::new();
    assert_eq!(cache.last_prime(), 5);
    cache.generate_upto(5);
    assert_eq!(cache.len(), 3);
    cache.generate_upto(8);
    assert_eq!(cache.last_prime(), 11);
    assert_eq!(cache.len(), 5);
    cache.generate_count(10);
    assert_eq!(cache.len(), 10);
    assert_eq!(cache.last_prime(), 29);
    assert_eq!(cache.get(3), 7);
    cache.generate_count(4);
    assert_eq!(cache.len(), 10);
    cache.reset();
    assert_eq!(cache.len(), 3);
    assert_eq!(cache.get(0), 2);
}
