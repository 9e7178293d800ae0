//! The prime-power analysis behind the von Mangoldt function.
//!
//! The von Mangoldt value of `n` is `ln p` when `n` is a prime power `p^k`
//! (`k >= 1`) and 0 otherwise. Everything except the final logarithm is
//! integer arithmetic: `von_mangoldt_base` finds the unique prime base when
//! there is one, by trial division up to the square root of `n`.

use vstd::prelude::*;

verus! {

use crate::arith::divides;
use crate::arith::is_prime;
use crate::arith::is_prime_power_with_base;
use crate::arith::lemma_cofactor;
use crate::arith::lemma_divides_transitive;
use crate::arith::lemma_pow_nat_positive;
use crate::arith::lemma_prime_from_no_small_factor;
use crate::arith::lemma_prime_power_base_unique;
use crate::arith::lemma_two_factor_not_prime_power;
use crate::arith::pow_nat;
use vstd::arithmetic::div_mod::lemma_fundamental_div_mod;
use vstd::arithmetic::div_mod::lemma_mod_division_less_than_divisor;

/// The prime base of `n` when `n` is a prime power `p^k` with `k >= 1`, and
/// nothing otherwise. The von Mangoldt value of `n` is the natural log of
/// this base when it exists and 0 when it does not.
///
/// Trial division: the smallest divisor of `n` above 1 is a prime `p`;
/// dividing `p` out repeatedly leaves 1 exactly when `n` was a pure power of
/// `p`. When no divisor is found up to the square root, `n` itself is prime.
pub fn von_mangoldt_base(n: u32) -> (r: Option<u32>)
    ensures
        match r {
            Some(p) => is_prime_power_with_base(n as nat, p as nat) && (forall|q: nat|
                is_prime_power_with_base(n as nat, q) ==> q == p as nat),
            None => forall|q: nat| !is_prime_power_with_base(n as nat, q),
        },
{
    if n < 2 {
        proof {
            assert forall|q: nat| !is_prime_power_with_base(n as nat, q) by {
                if is_prime_power_with_base(n as nat, q) {
                    let k = choose|k: nat| 1 <= k && #[trigger] pow_nat(q, k) == n as nat;
                    lemma_pow_nat_positive(q, (k - 1) as nat);
                    assert(pow_nat(q, k) == q * pow_nat(q, (k - 1) as nat));
                    assert(q * pow_nat(q, (k - 1) as nat) >= 2) by (nonlinear_arith)
                        requires
                            q >= 2,
                            pow_nat(q, (k - 1) as nat) >= 1,
                    ;
                }
            }
        }
        return None;
    }
    let mut p: u32 = 2;
    while p <= n / p
        invariant
            2 <= n,
            2 <= p <= n + 2,
            p == 2 || p % 2 == 1,
            forall|d: nat| 2 <= d < p ==> !(#[trigger] divides(d, n as nat)),
        decreases n + 2 - p,
    {
        proof {
            lemma_fundamental_div_mod(n as int, p as int);
            lemma_mod_division_less_than_divisor(n as int, p as int);
            assert(p * p <= n) by (nonlinear_arith)
                requires
                    (p as int) <= (n as int) / (p as int),
                    (n as int) == (p as int) * ((n as int) / (p as int)) + (n as int) % (
                    p as int),
                    (n as int) % (p as int) >= 0,
            ;
            assert(2 * p <= n) by (nonlinear_arith)
                requires
                    p * p <= n,
                    p >= 2,
            ;
        }
        if n % p == 0 {
            assert(divides(p as nat, n as nat));
            let mut m: u32 = n;
            let ghost mut j: nat = 0;
            proof {
                assert(pow_nat(p as nat, 0) == 1);
            }
            while m % p == 0
                invariant
                    2 <= p <= n,
                    1 <= m <= n,
                    n as nat == pow_nat(p as nat, j) * (m as nat),
                    j == 0 ==> m == n,
                decreases m,
            {
                let ghost m0 = m as nat;
                proof {
                    lemma_cofactor(p as nat, m as nat);
                }
                m = m / p;
                proof {
                    assert(m0 == (p as nat) * (m as nat));
                    assert(m < m0 && m >= 1) by (nonlinear_arith)
                        requires
                            m0 == (p as nat) * (m as nat),
                            p >= 2,
                            m0 >= 1,
                            (m as nat) == m0 / (p as nat),
                            m0 / (p as nat) >= 1,
                    ;
                    assert(pow_nat(p as nat, j + 1) == (p as nat) * pow_nat(p as nat, j));
                    assert(n as nat == pow_nat(p as nat, j + 1) * (m as nat)) by (nonlinear_arith)
                        requires
                            n as nat == pow_nat(p as nat, j) * m0,
                            m0 == (p as nat) * (m as nat),
                            pow_nat(p as nat, j + 1) == (p as nat) * pow_nat(p as nat, j),
                    ;
                    j = j + 1;
                }
            }
            proof {
                assert(j >= 1) by {
                    if j == 0 {
                        assert(m == n);
                        assert(divides(p as nat, m as nat));
                    }
                }
                assert(is_prime(p as nat)) by {
                    assert forall|d: nat| 2 <= d < p implies !(#[trigger] divides(
                        d,
                        p as nat,
                    )) by {
                        if divides(d, p as nat) {
                            lemma_divides_transitive(d, p as nat, n as nat);
                        }
                    }
                }
            }
            if m == 1 {
                proof {
                    assert(n as nat == pow_nat(p as nat, j) * 1);
                    assert(1 <= j && pow_nat(p as nat, j) == n as nat);
                    assert(is_prime_power_with_base(n as nat, p as nat));
                    assert forall|q: nat| is_prime_power_with_base(n as nat, q) implies q
                        == p as nat by {
                        lemma_prime_power_base_unique(n as nat, p as nat, q);
                    }
                }
                return Some(p);
            } else {
                proof {
                    lemma_two_factor_not_prime_power(n as nat, p as nat, j, m as nat);
                }
                return None;
            }
        }
        p += if p == 2 {
            1
        } else {
            2
        };
        proof {
            assert forall|d: nat| 2 <= d < p implies !(#[trigger] divides(d, n as nat)) by {
                if divides(d, n as nat) && d >= 2 {
                    if d % 2 == 0 && d > 2 {
                        assert(divides(2, d));
                        lemma_divides_transitive(2, d, n as nat);
                    }
                }
            }
        }
    }
    proof {
        lemma_fundamental_div_mod(n as int, p as int);
        lemma_mod_division_less_than_divisor(n as int, p as int);
        assert(p * p > n) by (nonlinear_arith)
            requires
                (p as int) > (n as int) / (p as int),
                (n as int) == (p as int) * ((n as int) / (p as int)) + (n as int) % (p as int),
                (n as int) % (p as int) < (p as int),
        ;
        lemma_prime_from_no_small_factor(n as nat, p as nat);
        assert(pow_nat(n as nat, 0) == 1);
        assert(pow_nat(n as nat, 1) == (n as nat) * 1);
        assert(1 <= 1nat && pow_nat(n as nat, 1) == n as nat);
        assert(is_prime_power_with_base(n as nat, n as nat));
        assert forall|q: nat| is_prime_power_with_base(n as nat, q) implies q == n as nat by {
            lemma_prime_power_base_unique(n as nat, n as nat, q);
        }
    }
    Some(n)
}

} // verus!
