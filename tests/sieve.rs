use slow_primes::{PrimeIterator, Primes};

fn forward(mut it: PrimeIterator) -> Vec<usize> {
    let mut out = Vec::new();
    while let Some(p) = it.next() {
        out.push(p);
    }
    out
}

fn backward(mut it: PrimeIterator) -> Vec<usize> {
    let mut out = Vec::new();
    while let Some(p) = it.next_back() {
        out.push(p);
    }
    out
}

fn trial_division(n: usize) -> bool {
    n >= 2 && (2..n).all(|d| n % d != 0)
}

fn prime_count(n: usize) -> usize {
    (0..=n).filter(|&k| trial_division(k)).count()
}

fn product(f: &[(usize, usize)]) -> usize {
    f.iter().fold(1, |x, &(p, e)| x * p.pow(e as u32))
}

#[test]
fn is_prime() {
    let primes = Primes::sieve(1000);
    let tests = [
        (0, false),
        (1, false),
        (2, true),
        (3, true),
        (4, false),
        (5, true),
        (6, false),
        (7, true),
        (8, false),
        (9, false),
        (10, false),
        (11, true),
    ];

    for &(n, expected) in tests.iter() {
        assert_eq!(primes.is_prime(n), expected);
    }
}

#[test]
fn upper_bound() {
    let primes = Primes::sieve(30);
    assert_eq!(primes.upper_bound(), 29);
    let primes = Primes::sieve(31);
    assert_eq!(primes.upper_bound(), 31);

    let primes = Primes::sieve(30000);
    assert_eq!(primes.upper_bound(), 29999);
    let primes = Primes::sieve(30001);
    assert_eq!(primes.upper_bound(), 30001);
}

#[test]
fn primes_iterator() {
    let primes = Primes::sieve(50);
    let mut expected = [2, 3, 5, 7, 11, 13, 17, 19, 23, 29, 31, 37, 41, 43, 47];

    assert_eq!(forward(primes.primes()), expected);

    expected.reverse();
    assert_eq!(backward(primes.primes()), expected);
}

#[test]
fn factor() {
    let primes = Primes::sieve(1000);

    let tests: &[(usize, &[(usize, usize)])] = &[
        (1, &[]),
        (2, &[(2_usize, 1)]),
        (3, &[(3, 1)]),
        (4, &[(2, 2)]),
        (5, &[(5, 1)]),
        (6, &[(2, 1), (3, 1)]),
        (7, &[(7, 1)]),
        (8, &[(2, 3)]),
        (9, &[(3, 2)]),
        (10, &[(2, 1), (5, 1)]),
        (2 * 2 * 2 * 2 * 2 * 3 * 3 * 3 * 3 * 3, &[(2, 5), (3, 5)]),
        (
            2 * 3 * 5 * 7 * 11 * 13 * 17 * 19,
            &[(2, 1), (3, 1), (5, 1), (7, 1), (11, 1), (13, 1), (17, 1), (19, 1)],
        ),
        // a factor larger than that stored in the map
        (7561, &[(7561, 1)]),
        (2 * 7561, &[(2, 1), (7561, 1)]),
        (4 * 5 * 7561, &[(2, 2), (5, 1), (7561, 1)]),
    ];
    for &(n, expected) in tests.iter() {
        assert_eq!(primes.factor(n), Ok(expected.to_vec()));
    }
}

#[test]
fn factor_compare() {
    let short = Primes::sieve(30);
    let long = Primes::sieve(10000);

    let short_lim = short.upper_bound() * short.upper_bound() + 1;

    // every number less than bound^2 can be factored (since they
    // always have a factor <= bound).
    for n in 0..short_lim {
        assert_eq!(short.factor(n), long.factor(n))
    }
    // larger numbers can only sometimes be factored
    'next_n: for n in short_lim..10000 {
        let possible = short.factor(n);
        let real = long.factor(n).ok().unwrap();

        let mut seen_small = None;
        for (this_idx, &(p, i)) in real.iter().enumerate() {
            let last_short_prime = if p >= short_lim {
                this_idx
            } else if p > short.upper_bound() {
                match seen_small {
                    Some(idx) => idx,
                    None if i > 1 => this_idx,
                    None => {
                        // we can cope with one
                        seen_small = Some(this_idx);
                        continue;
                    }
                }
            } else {
                // small enough
                continue;
            };

            // break into the two parts
            let (low, hi) = real.split_at(last_short_prime);
            let leftover = hi.iter().fold(1, |x, &(p, i)| x * p.pow(i as u32));

            assert_eq!(possible, Err((leftover, low.to_vec())));
            continue 'next_n;
        }

        // if we're here, we know that everything should match
        assert_eq!(possible, Ok(real))
    }
}

#[test]
fn factor_failures() {
    let primes = Primes::sieve(30);

    assert_eq!(primes.factor(0), Err((0, vec![])));
    // can only handle one large factor
    assert_eq!(primes.factor(31 * 31), Err((31 * 31, vec![])));
    assert_eq!(primes.factor(2 * 3 * 31 * 31), Err((31 * 31, vec![(2, 1), (3, 1)])));

    // prime that's too large (bigger than 30*30).
    assert_eq!(primes.factor(7561), Err((7561, vec![])));
    assert_eq!(primes.factor(2 * 3 * 7561), Err((7561, vec![(2, 1), (3, 1)])));
}

#[test]
fn size_hint() {
    let counter = Primes::sieve(2000);
    let estimate = |n: usize| {
        let c = forward(counter.primes()).iter().filter(|&&p| p <= n).count();
        (c.saturating_sub(2), c + 3)
    };
    for i in (0..1000).step_by(100) {
        let sieve = Primes::sieve(i);

        let mut primes = sieve.primes();

        // check the size hint at each and every iteration
        loop {
            let (lo, hi) = primes.size_hint(&estimate);

            let copy = primes.clone();
            let len = forward(copy).len();

            let next = primes.next();

            assert!(
                lo <= len && len <= hi.unwrap(),
                "found failing size_hint for {:?} to {}, should satisfy: {} <= {} <= {:?}",
                next,
                i,
                lo,
                len,
                hi
            );

            if next.is_none() {
                break;
            }
        }
    }
}

#[test]
fn is_prime_matches_trial_division() {
    for limit in [0, 1, 9, 10, 11, 24, 25, 26, 49, 121, 169, 300, 1001] {
        let primes = Primes::sieve(limit);
        for n in 0..=primes.upper_bound() {
            assert_eq!(primes.is_prime(n), trial_division(n), "limit {} n {}", limit, n);
        }
    }
}

#[test]
fn odd_square_at_the_limit_is_composite() {
    assert!(!Primes::sieve(25).is_prime(25));
    assert!(!Primes::sieve(49).is_prime(49));
    assert!(!Primes::sieve(121).is_prime(121));
    assert!(Primes::sieve(29).is_prime(29));
}

#[test]
fn upper_bound_is_odd_and_reaches_the_limit() {
    for limit in 0..200 {
        let u = Primes::sieve(limit).upper_bound();
        assert_eq!(u % 2, 1);
        assert!(u + 1 >= limit);
        if limit % 2 == 1 && limit >= 11 {
            assert_eq!(u, limit);
        }
    }
    assert_eq!(Primes::sieve(0).upper_bound(), 9);
    assert_eq!(Primes::sieve(10).upper_bound(), 9);
    assert_eq!(Primes::sieve(11).upper_bound(), 11);
}

#[test]
fn forward_equals_reversed_backward() {
    for limit in [0, 10, 13, 50, 97, 500] {
        let primes = Primes::sieve(limit);
        let f = forward(primes.primes());
        let mut b = backward(primes.primes());
        b.reverse();
        assert_eq!(f, b);
        let expected: Vec<usize> = (0..=primes.upper_bound()).filter(|&n| trial_division(n)).collect();
        assert_eq!(f, expected);
    }
}

#[test]
fn interleaved_ends_meet() {
    let primes = Primes::sieve(20);
    let mut it = primes.primes();
    assert_eq!(it.next_back(), Some(19));
    assert_eq!(it.next(), Some(2));
    assert_eq!(it.next_back(), Some(17));
    assert_eq!(it.next(), Some(3));
    assert_eq!(it.next(), Some(5));
    assert_eq!(it.next_back(), Some(13));
    assert_eq!(it.next_back(), Some(11));
    assert_eq!(it.next(), Some(7));
    assert_eq!(it.next(), None);
    assert_eq!(it.next_back(), None);

    let small = Primes::sieve(10);
    let mut back_only = small.primes();
    assert_eq!(backward(back_only.clone()), vec![7, 5, 3, 2]);
    assert_eq!(back_only.next_back(), Some(7));
    assert_eq!(forward(back_only), vec![2, 3, 5]);
}

#[test]
fn factor_round_trip() {
    let primes = Primes::sieve(40);
    let u = primes.upper_bound();
    for n in 1..u * u {
        let f = primes.factor(n).unwrap();
        assert_eq!(product(&f), n);
        for w in f.windows(2) {
            assert!(w[0].0 < w[1].0);
        }
        for &(p, e) in f.iter() {
            assert!(trial_division(p));
            assert!(e >= 1);
        }
    }
}

#[test]
fn factor_agrees_below_the_smaller_boundary() {
    let small = Primes::sieve(12);
    let large = Primes::sieve(100);
    let bound = small.upper_bound() * small.upper_bound();
    for n in 0..bound {
        assert_eq!(small.factor(n), large.factor(n));
    }
    assert_eq!(small.factor(bound), Ok(vec![(11, 2)]));
}

#[test]
fn factor_leftover_shapes() {
    let primes = Primes::sieve(30);
    let (m, f) = primes.factor(2 * 2 * 31 * 37).unwrap_err();
    assert_eq!((m, f), (31 * 37, vec![(2, 2)]));
    assert_eq!(primes.factor(29 * 29), Ok(vec![(29, 2)]));
    assert_eq!(primes.factor(2 * 31), Ok(vec![(2, 1), (31, 1)]));
    assert_eq!(primes.factor(841), Ok(vec![(29, 2)]));
    assert_eq!(primes.factor(839), Ok(vec![(839, 1)]));
}

#[test]
fn size_hint_exact_formula() {
    let primes = Primes::sieve(30);
    let exact = |n: usize| {
        let c = prime_count(n);
        (c, c)
    };
    let mut it = primes.primes();
    // 2..=29 holds 10 primes: pi(29) - pi(2) = 9
    assert_eq!(it.size_hint(&exact), (9, Some(10)));
    let loose = |n: usize| {
        let c = prime_count(n);
        (c - 1, c + 1)
    };
    // (10 - 1) - min(1 + 1, 9) = 7, (10 + 1) - (1 - 1) + 1 = 12
    assert_eq!(it.size_hint(&loose), (7, Some(12)));
    for _ in 0..9 {
        it.next();
    }
    assert_eq!(it.size_hint(&exact), (1, Some(1)));
    it.next();
    assert_eq!(it.size_hint(&exact), (0, Some(0)));
    let huge = |_n: usize| (0, usize::MAX);
    let fresh = primes.primes();
    assert_eq!(fresh.size_hint(&huge), (0, None));
}
