use primes_generator::PrimeGenerator;

fn drain(limit: usize) -> Vec<usize> {
    let mut generator = PrimeGenerator::new(limit);
    generator.collect_all()
}

fn is_prime_by_trial_division(n: usize) -> bool {
    if n < 2 {
        return false;
    }
    let mut d: usize = 2;
    while d < n {
        if n % d == 0 {
            return false;
        }
        d += 1;
    }
    true
}

#[test]
fn empty_below_two() {
    assert_eq!(drain(0), Vec::<usize>::new());
    assert_eq!(drain(1), Vec::<usize>::new());
}

#[test]
fn exactly_two_at_limit_two() {
    assert_eq!(drain(2), vec![2]);
}

#[test]
fn primes_up_to_ten() {
    assert_eq!(drain(10), vec![2, 3, 5, 7]);
}

#[test]
fn count_and_largest_up_to_thousand() {
    let primes = drain(1000);
    assert_eq!(primes.len(), 168);
    assert_eq!(*primes.last().unwrap(), 997);
}

#[test]
fn sum_up_to_hundred() {
    let primes = drain(100);
    let sum: usize = primes.iter().sum();
    assert_eq!(sum, 1060);
}

#[test]
fn same_limit_same_sequence() {
    assert_eq!(drain(0), drain(0));
    assert_eq!(drain(2), drain(2));
    assert_eq!(drain(50), drain(50));
    assert_eq!(drain(997), drain(997));
}

#[test]
fn values_strictly_increase() {
    let mut generator = PrimeGenerator::new(100);
    let mut previous: usize = 0;
    while let Some(prime) = generator.next() {
        assert!(prime > previous);
        previous = prime;
    }
}

#[test]
fn upper_bound_and_completeness() {
    let limit: usize = 200;
    let primes = drain(limit);
    for &value in &primes {
        assert!(value <= limit);
    }
    for n in 0..=limit {
        let expected: usize = if is_prime_by_trial_division(n) { 1 } else { 0 };
        let occurrences: usize = primes.iter().filter(|&&value| value == n).count();
        assert_eq!(occurrences, expected);
    }
}

#[test]
fn exhaustion_is_permanent() {
    let mut generator = PrimeGenerator::new(30);
    while generator.next().is_some() {}
    for _ in 0..5 {
        assert!(generator.next().is_none());
    }
}

#[test]
fn exhaustion_is_immediate_below_two() {
    let mut generator = PrimeGenerator::new(1);
    assert!(generator.next().is_none());
    assert!(generator.next().is_none());
}

#[test]
fn first_twenty_primes_with_limit_hundred() {
    let mut generator = PrimeGenerator::new(100);
    let mut first: Vec<usize> = Vec::new();
    for _ in 0..20 {
        first.push(generator.next().unwrap());
    }
    assert_eq!(
        first,
        vec![2, 3, 5, 7, 11, 13, 17, 19, 23, 29, 31, 37, 41, 43, 47, 53, 59, 61, 67, 71]
    );
}

#[test]
fn small_edge_limits() {
    assert_eq!(drain(3), vec![2, 3]);
    assert_eq!(drain(4), vec![2, 3]);
    assert_eq!(drain(5), vec![2, 3, 5]);
    assert_eq!(drain(6), vec![2, 3, 5]);
    assert_eq!(drain(7), vec![2, 3, 5, 7]);
    assert_eq!(drain(9), vec![2, 3, 5, 7]);
}

#[test]
fn stepping_matches_bulk_collection() {
    let mut bulk = PrimeGenerator::new(60);
    let mut stepped = PrimeGenerator::new(60);
    let all = bulk.collect_all();
    let mut manual: Vec<usize> = Vec::new();
    while let Some(prime) = stepped.next() {
        manual.push(prime);
    }
    assert_eq!(all, manual);
}

#[test]
fn collect_after_partial_drain() {
    let mut generator = PrimeGenerator::new(20);
    assert_eq!(generator.next(), Some(2));
    assert_eq!(generator.next(), Some(3));
    assert_eq!(generator.collect_all(), vec![5, 7, 11, 13, 17, 19]);
}

#[test]
fn collect_on_drained_generator_is_empty() {
    let mut generator = PrimeGenerator::new(10);
    let first = generator.collect_all();
    assert_eq!(first, vec![2, 3, 5, 7]);
    assert_eq!(generator.collect_all(), Vec::<usize>::new());
}
