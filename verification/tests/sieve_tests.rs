use smrk_probe::sieve::primes_up_to;

#[test]
fn sieve_matches_known_primes_to_30() {
    assert_eq!(primes_up_to(30), vec![2, 3, 5, 7, 11, 13, 17, 19, 23, 29]);
}

#[test]
fn sieve_below_two_is_empty() {
    assert_eq!(primes_up_to(0), Vec::<u32>::new());
    assert_eq!(primes_up_to(1), Vec::<u32>::new());
}

#[test]
fn sieve_cutoff_two_holds_only_two() {
    assert_eq!(primes_up_to(2), vec![2]);
}

#[test]
fn sieve_cutoff_on_a_prime_includes_it() {
    assert_eq!(primes_up_to(13), vec![2, 3, 5, 7, 11, 13]);
}

#[test]
fn sieve_cutoff_on_a_composite_stops_below_it() {
    assert_eq!(primes_up_to(25), vec![2, 3, 5, 7, 11, 13, 17, 19, 23]);
}

#[test]
fn sieve_prime_count_at_policy_maximum() {
    // pi(1_000_000) = 78_498
    let ps = primes_up_to(1_000_000);
    assert_eq!(ps.len(), 78_498);
    assert_eq!(ps[0], 2);
    assert_eq!(*ps.last().unwrap(), 999_983);
}
