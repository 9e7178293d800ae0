use smrk_probe::mangoldt::von_mangoldt_base;

// The von Mangoldt value of n is ln(p) when von_mangoldt_base(n) = Some(p)
// and 0 when it is None; these check the base and the resulting weight.

fn von_mangoldt(n: u32) -> f64 {
    match von_mangoldt_base(n) {
        Some(p) => (p as f64).ln(),
        None => 0.0,
    }
}

#[test]
fn von_mangoldt_base_on_small_values() {
    assert_eq!(von_mangoldt_base(0), None);
    assert_eq!(von_mangoldt_base(1), None);
    assert_eq!(von_mangoldt_base(2), Some(2));
    assert_eq!(von_mangoldt_base(4), Some(2));
    assert_eq!(von_mangoldt_base(6), None);
    assert_eq!(von_mangoldt_base(7), Some(7));
    assert_eq!(von_mangoldt_base(9), Some(3));
}

#[test]
fn von_mangoldt_weights_match_logs() {
    assert_eq!(von_mangoldt(1), 0.0);
    assert_eq!(von_mangoldt(2), 2.0f64.ln());
    assert_eq!(von_mangoldt(4), 2.0f64.ln());
    assert_eq!(von_mangoldt(6), 0.0);
    assert_eq!(von_mangoldt(9), 3.0f64.ln());
    assert_eq!(von_mangoldt(7), 7.0f64.ln());
}

#[test]
fn von_mangoldt_base_on_higher_powers() {
    assert_eq!(von_mangoldt_base(8), Some(2));
    assert_eq!(von_mangoldt_base(16), Some(2));
    assert_eq!(von_mangoldt_base(27), Some(3));
    assert_eq!(von_mangoldt_base(25), Some(5));
    assert_eq!(von_mangoldt_base(243), Some(3));
    assert_eq!(von_mangoldt_base(1 << 31), Some(2));
}

#[test]
fn von_mangoldt_base_on_mixed_composites() {
    assert_eq!(von_mangoldt_base(12), None);
    assert_eq!(von_mangoldt_base(18), None);
    assert_eq!(von_mangoldt_base(100), None);
    assert_eq!(von_mangoldt_base(2 * 3 * 5 * 7), None);
}

#[test]
fn von_mangoldt_base_on_large_primes() {
    assert_eq!(von_mangoldt_base(999_983), Some(999_983));
    assert_eq!(von_mangoldt_base(2_147_483_647), Some(2_147_483_647));
}

#[test]
fn sieve_and_trial_division_agree_on_primality() {
    // n is prime exactly when its von Mangoldt base is n itself
    let ps = smrk_probe::sieve::primes_up_to(500);
    for n in 0..=500u32 {
        assert_eq!(ps.contains(&n), von_mangoldt_base(n) == Some(n));
    }
}
