//! Sieve of Eratosthenes.
//!
//! `primes_up_to` returns the ascending list of every prime up to a cutoff.
//! The sieve keeps one marker per integer; the marker for `k` survives round
//! `p` exactly when `k` has no proper divisor below `p`. Once `p` passes the
//! square root of the cutoff, the surviving markers are exactly the primes.

use vstd::prelude::*;

verus! {

use crate::arith::divides;
use crate::arith::is_prime;
use crate::arith::lemma_cofactor;
use crate::arith::lemma_divides_transitive;
use crate::arith::lemma_divisor_le;
use crate::arith::lemma_prime_from_no_small_factor;
use crate::bounds::PRIME_CUTOFF_MAX;
use vstd::arithmetic::div_mod::lemma_fundamental_div_mod;
use vstd::arithmetic::div_mod::lemma_mod_division_less_than_divisor;
use vstd::arithmetic::div_mod::lemma_mod_multiples_basic;

/// The sieve marker that integer `k` should carry once every divisor below
/// `p` has been processed: `k` is at least 2 and no integer in `[2, p)`
/// other than `k` itself divides `k`.
pub open spec fn prime_marker(k: nat, p: nat) -> bool {
    &&& k >= 2
    &&& forall|d: nat| 2 <= d < p && #[trigger] divides(d, k) ==> d == k
}

/// Every position of the marker array is correct for round `p`.
pub open spec fn marker_inv(flags: Seq<bool>, p: nat) -> bool {
    forall|k: int| 0 <= k < flags.len() ==> flags[k] == prime_marker(k as nat, p)
}

/// Round `p` of the sieve, when `p` itself is still marked (so `p` is
/// prime): clearing every multiple of `p` from `p * p` on turns the round-`p`
/// markers into the round-`p + 1` markers.
proof fn lemma_marker_step_prime(flags0: Seq<bool>, flags1: Seq<bool>, p: nat, n: nat)
    requires
        flags0.len() == n + 1,
        flags1.len() == n + 1,
        2 <= p,
        p * p <= n,
        marker_inv(flags0, p),
        flags0[p as int] == true,
        forall|m: int|
            0 <= m <= n ==> (#[trigger] flags1[m]) == (flags0[m] && !(p * p <= m && divides(
                p,
                m as nat,
            ))),
    ensures
        marker_inv(flags1, p + 1),
{
    assert forall|k: int| 0 <= k < flags1.len() implies flags1[k] == prime_marker(
        k as nat,
        p + 1,
    ) by {
        let m = k as nat;
        if m < 2 {
            assert(!prime_marker(m, p));
            assert(flags0[k] == false);
            assert(flags1[k] == false);
        } else if !divides(p, m) {
            assert(flags1[k] == flags0[k]);
            if prime_marker(m, p) {
                assert forall|d: nat| 2 <= d < p + 1 && #[trigger] divides(d, m) implies d
                    == m by {
                    if d < p {
                        assert(divides(d, m) ==> d == m);
                    } else {
                        assert(d == p);
                        assert(!divides(p, m));
                    }
                }
                assert(prime_marker(m, p + 1));
            } else {
                assert(!prime_marker(m, p + 1));
            }
        } else if m == p {
            assert(p * p > p) by (nonlinear_arith)
                requires
                    p >= 2,
            ;
            assert(flags1[k] == flags0[k]);
            assert(prime_marker(m, p));
            assert forall|d: nat| 2 <= d < p + 1 && #[trigger] divides(d, m) implies d == m by {
                if d < p {
                    assert(divides(d, m) ==> d == m);
                }
            }
            assert(prime_marker(m, p + 1));
        } else {
            // A proper multiple of p.
            lemma_divisor_le(p, m);
            assert(p < m);
            if p * p <= m {
                assert(flags1[k] == false);
                assert(divides(p, m) && p != m);
                assert(!prime_marker(m, p + 1));
            } else {
                // m is a multiple of p below p * p, so its cofactor is a
                // proper divisor below p and the marker was already clear.
                lemma_cofactor(p, m);
                let c = m / p;
                assert(c >= 2) by {
                    if c == 1 {
                        assert(m == p * 1int);
                    }
                }
                assert(c < p) by (nonlinear_arith)
                    requires
                        m == p * c,
                        m < p * p,
                        p >= 1,
                        c >= 1,
                ;
                assert(c < m);
                assert(divides(c, m) && c != m && 2 <= c < p);
                assert(!prime_marker(m, p));
                assert(flags0[k] == false);
                assert(flags1[k] == false);
                assert(!prime_marker(m, p + 1));
            }
        }
    }
}

/// Round `p` of the sieve, when `p` is already cleared (so `p` is
/// composite): nothing needs marking, because every multiple of `p` is also
/// a multiple of one of `p`'s own smaller divisors.
proof fn lemma_marker_step_composite(flags: Seq<bool>, p: nat, n: nat)
    requires
        flags.len() == n + 1,
        2 <= p <= n,
        marker_inv(flags, p),
        flags[p as int] == false,
    ensures
        marker_inv(flags, p + 1),
{
    assert(!prime_marker(p, p));
    assert(exists|d: nat| 2 <= d < p && #[trigger] divides(d, p) && d != p);
    let d0 = choose|d: nat| 2 <= d < p && #[trigger] divides(d, p) && d != p;
    assert(2 <= d0 < p && divides(d0, p));
    assert forall|k: int| 0 <= k < flags.len() implies flags[k] == prime_marker(
        k as nat,
        p + 1,
    ) by {
        let m = k as nat;
        if prime_marker(m, p) {
            assert forall|d: nat| 2 <= d < p + 1 && #[trigger] divides(d, m) implies d == m by {
                if d == p {
                    lemma_divides_transitive(d0, p, m);
                    assert(d0 == m);
                    lemma_divisor_le(p, m);
                    assert(false);
                }
            }
            assert(prime_marker(m, p + 1));
        } else {
            if m >= 2 {
                assert(exists|d: nat| 2 <= d < p && #[trigger] divides(d, m) && d != m);
                let dw = choose|d: nat| 2 <= d < p && #[trigger] divides(d, m) && d != m;
                assert(divides(dw, m) && 2 <= dw < p + 1 && dw != m);
            }
            assert(!prime_marker(m, p + 1));
        }
    }
}

/// Once the round counter passes the square root of the cutoff, a surviving
/// marker means prime: a composite would have a divisor on the small side of
/// its square root, and every such divisor has been processed.
proof fn lemma_marker_complete(flags: Seq<bool>, p: nat, n: nat)
    requires
        flags.len() == n + 1,
        2 <= p,
        p * p > n,
        marker_inv(flags, p),
    ensures
        forall|k: int| 0 <= k <= n ==> flags[k] == is_prime(k as nat),
{
    assert forall|k: int| 0 <= k <= n implies flags[k] == is_prime(k as nat) by {
        let m = k as nat;
        if m < 2 {
            assert(!prime_marker(m, p));
            assert(!is_prime(m));
        } else if prime_marker(m, p) {
            if m < p {
                assert forall|d: nat| 2 <= d < m implies !(#[trigger] divides(d, m)) by {
                    if divides(d, m) {
                        assert(d == m);
                    }
                }
                assert(is_prime(m));
            } else {
                assert forall|d: nat| 2 <= d < p implies !(#[trigger] divides(d, m)) by {
                    if divides(d, m) {
                        assert(d == m);
                    }
                }
                lemma_prime_from_no_small_factor(m, p);
            }
        } else {
            assert(exists|d: nat| 2 <= d < p && #[trigger] divides(d, m) && d != m);
            let dw = choose|d: nat| 2 <= d < p && #[trigger] divides(d, m) && d != m;
            assert(divides(dw, m));
            lemma_divisor_le(dw, m);
            assert(2 <= dw < m);
            assert(!is_prime(m));
        }
    }
}

/// The ascending list of all primes up to `pmax`; empty when `pmax < 2`.
/// The cutoff is capped by the boundary policy before the sieve runs, which
/// also keeps the marker array affordable.
pub fn primes_up_to(pmax: u32) -> (r: Vec<u32>)
    requires
        pmax <= PRIME_CUTOFF_MAX,
    ensures
        forall|i: int| 0 <= i < r@.len() ==> is_prime((#[trigger] r@[i]) as nat) && 2 <= r@[i]
            <= pmax,
        forall|i: int, j: int| 0 <= i < j < r@.len() ==> r@[i] < r@[j],
        forall|q: nat|
            is_prime(q) && q <= pmax as nat ==> exists|i: int|
                0 <= i < r@.len() && (#[trigger] r@[i]) as nat == q,
{
    if pmax < 2 {
        let r: Vec<u32> = Vec::new();
        return r;
    }
    let n: usize = pmax as usize;
    let mut flags: Vec<bool> = Vec::new();
    let mut i: usize = 0;
    while i < n + 1
        invariant
            n <= 1_000_000,
            i <= n + 1,
            flags@.len() == i as int,
            forall|k: int| 0 <= k < i ==> flags@[k] == true,
        decreases n + 1 - i,
    {
        flags.push(true);
        i = i + 1;
    }
    flags.set(0, false);
    flags.set(1, false);
    proof {
        assert forall|k: int| 0 <= k < flags@.len() implies flags@[k] == prime_marker(
            k as nat,
            2,
        ) by {
            if k >= 2 {
                assert(prime_marker(k as nat, 2));
            } else {
                assert(!prime_marker(k as nat, 2));
            }
        }
        assert(marker_inv(flags@, 2));
    }
    let mut p: usize = 2;
    while p <= n / p
        invariant
            n == pmax as usize,
            2 <= n <= 1_000_000,
            2 <= p <= n + 1,
            flags@.len() == n + 1,
            marker_inv(flags@, p as nat),
        decreases n + 1 - p,
    {
        proof {
            lemma_fundamental_div_mod(n as int, p as int);
            lemma_mod_division_less_than_divisor(n as int, p as int);
            assert(p * p <= n) by (nonlinear_arith)
                requires
                    (p as int) <= (n as int) / (p as int),
                    (n as int) == (p as int) * ((n as int) / (p as int)) + (n as int) % (p as int),
                    (n as int) % (p as int) >= 0,
            ;
            assert(p <= n) by (nonlinear_arith)
                requires
                    p * p <= n,
                    p >= 2,
            ;
        }
        if flags[p] {
            let ghost flags0 = flags@;
            let mut k: usize = p * p;
            proof {
                lemma_mod_multiples_basic(p as int, p as int);
                assert(divides(p as nat, k as nat));
            }
            while k <= n
                invariant
                    n <= 1_000_000,
                    2 <= p,
                    p * p <= n,
                    flags@.len() == n + 1,
                    flags0.len() == n + 1,
                    p * p <= k <= n + p,
                    divides(p as nat, k as nat),
                    p <= n,
                    forall|m: int|
                        0 <= m < flags@.len() ==> (#[trigger] flags@[m]) == (flags0[m] && !(p * p
                            <= m < k && divides(p as nat, m as nat))),
                decreases n + p - k,
            {
                flags.set(k, false);
                proof {
                    let ghost kk = k as int;
                    assert forall|m: int| 0 <= m < flags@.len() implies (#[trigger] flags@[m])
                        == (flags0[m] && !(p * p <= m < kk + p && divides(p as nat, m as nat))) by {
                        if m == kk {
                            assert(flags@[m] == false);
                            assert(p * p <= m < kk + p && divides(p as nat, m as nat));
                        } else if kk < m < kk + p && divides(p as nat, m as nat) {
                            lemma_fundamental_div_mod(m, p as int);
                            lemma_fundamental_div_mod(kk, p as int);
                            assert(false) by (nonlinear_arith)
                                requires
                                    m == (p as int) * (m / (p as int)),
                                    kk == (p as int) * (kk / (p as int)),
                                    kk < m < kk + p,
                                    p >= 2,
                            ;
                        }
                    }
                }
                proof {
                    lemma_mod_multiples_basic((k / p + 1) as int, p as int);
                    lemma_fundamental_div_mod(k as int, p as int);
                    assert((k + p) as int == ((k / p + 1) as int) * (p as int)) by (nonlinear_arith)
                        requires
                            k as int == (p as int) * ((k / p) as int),
                    ;
                    assert(divides(p as nat, (k + p) as nat));
                }
                k = k + p;
            }
            proof {
                assert forall|m: int| 0 <= m <= n implies (#[trigger] flags@[m]) == (flags0[m]
                    && !(p * p <= m && divides(p as nat, m as nat))) by {
                    assert(flags@[m] == (flags0[m] && !(p * p <= m < k && divides(
                        p as nat,
                        m as nat,
                    ))));
                }
                lemma_marker_step_prime(flags0, flags@, p as nat, n as nat);
            }
        } else {
            proof {
                lemma_marker_step_composite(flags@, p as nat, n as nat);
            }
        }
        p = p + 1;
    }
    proof {
        lemma_fundamental_div_mod(n as int, p as int);
        lemma_mod_division_less_than_divisor(n as int, p as int);
        assert(p * p > n) by (nonlinear_arith)
            requires
                (p as int) > (n as int) / (p as int),
                (n as int) == (p as int) * ((n as int) / (p as int)) + (n as int) % (p as int),
                (n as int) % (p as int) < (p as int),
        ;
        lemma_marker_complete(flags@, p as nat, n as nat);
    }
    let mut out: Vec<u32> = Vec::new();
    let mut c: usize = 2;
    while c <= n
        invariant
            n == pmax as usize,
            2 <= n <= 1_000_000,
            flags@.len() == n + 1,
            2 <= c <= n + 1,
            forall|m: int| 0 <= m <= n ==> flags@[m] == is_prime(m as nat),
            forall|t: int|
                0 <= t < out@.len() ==> is_prime((#[trigger] out@[t]) as nat) && 2 <= out@[t]
                    && (out@[t] as int) < c,
            forall|t1: int, t2: int| 0 <= t1 < t2 < out@.len() ==> out@[t1] < out@[t2],
            forall|q: nat|
                is_prime(q) && q < c ==> exists|t: int|
                    0 <= t < out@.len() && (#[trigger] out@[t]) as nat == q,
        decreases n + 1 - c,
    {
        if flags[c] {
            let ghost out0 = out@;
            out.push(c as u32);
            proof {
                assert forall|q: nat| is_prime(q) && q < c + 1 implies exists|t: int|
                    0 <= t < out@.len() && (#[trigger] out@[t]) as nat == q by {
                    if q < c {
                        let t0 = choose|t: int|
                            0 <= t < out0.len() && (#[trigger] out0[t]) as nat == q;
                        assert(out@[t0] as nat == q);
                    } else {
                        assert(out@[out@.len() - 1] as nat == c as nat);
                    }
                }
            }
        } else {
            proof {
                assert forall|q: nat| is_prime(q) && q < c + 1 implies exists|t: int|
                    0 <= t < out@.len() && (#[trigger] out@[t]) as nat == q by {
                    if q == c {
                        assert(flags@[c as int] == is_prime(c as nat));
                        assert(false);
                    }
                }
            }
        }
        c = c + 1;
    }
    out
}

} // verus!
