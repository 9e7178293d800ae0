//! Divisibility, primality and prime powers.
//!
//! Shared vocabulary for the sieve and the von Mangoldt evaluator, together
//! with the number-theoretic facts they rest on: divisibility is transitive,
//! a number with no divisor up to its square root is prime, a linear
//! combination reaching the unit forces a prime to divide the other factor
//! (Bezout and Euclid), and a prime power determines its base.

use vstd::prelude::*;

verus! {

use vstd::arithmetic::div_mod::lemma_fundamental_div_mod;
use vstd::arithmetic::div_mod::lemma_mod_division_less_than_divisor;
use vstd::arithmetic::div_mod::lemma_mod_multiples_basic;
use vstd::arithmetic::div_mod::lemma_mod_self_0;
use vstd::arithmetic::div_mod::lemma_small_mod;

/// `f` divides `n` (meaningful for `f >= 1`).
pub open spec fn divides(f: nat, n: nat) -> bool
    recommends
        f >= 1,
{
    n % f == 0
}

/// `n` is prime: at least 2, with no divisor strictly between 1 and itself.
pub open spec fn is_prime(n: nat) -> bool {
    &&& n >= 2
    &&& forall|d: nat| 2 <= d < n ==> !(#[trigger] divides(d, n))
}

/// `b` raised to the `e`-th power.
pub open spec fn pow_nat(b: nat, e: nat) -> nat
    decreases e,
{
    if e == 0 {
        1
    } else {
        b * pow_nat(b, (e - 1) as nat)
    }
}

/// `n` is a power `p^k`, `k >= 1`, of the prime `p`.
pub open spec fn is_prime_power_with_base(n: nat, p: nat) -> bool {
    &&& is_prime(p)
    &&& exists|k: nat| 1 <= k && #[trigger] pow_nat(p, k) == n
}

/// A divisor of a divisor divides the whole.
pub proof fn lemma_divides_transitive(a: nat, b: nat, c: nat)
    requires
        a >= 1,
        b >= 1,
        divides(a, b),
        divides(b, c),
    ensures
        divides(a, c),
{
    lemma_fundamental_div_mod(b as int, a as int);
    lemma_fundamental_div_mod(c as int, b as int);
    let k1 = b as int / a as int;
    let k2 = c as int / b as int;
    assert(c as int == (k1 * k2) * (a as int)) by (nonlinear_arith)
        requires
            b as int == (a as int) * k1,
            c as int == (b as int) * k2,
    ;
    lemma_mod_multiples_basic(k1 * k2, a as int);
}

/// A divisor of a positive number is at most that number.
pub proof fn lemma_divisor_le(d: nat, n: nat)
    requires
        d >= 1,
        n >= 1,
        divides(d, n),
    ensures
        d <= n,
{
    if d > n {
        lemma_small_mod(n, d);
    }
}

/// A divisor splits its multiple into two complementary factors: `n/d` is
/// itself a divisor, and the product of the two is exactly `n`.
pub proof fn lemma_cofactor(d: nat, n: nat)
    requires
        d >= 1,
        n >= 1,
        divides(d, n),
    ensures
        n == d * (n / d),
        1 <= n / d <= n,
        divides(n / d, n),
{
    lemma_fundamental_div_mod(n as int, d as int);
    assert(n == d * (n / d));
    assert(n / d >= 1) by {
        if n / d == 0 {
            assert(n == d * 0 == 0) by (nonlinear_arith)
                requires
                    n == d * (n / d),
                    n / d == 0,
            ;
        }
    }
    lemma_mod_multiples_basic(d as int, (n / d) as int);
    assert((d * (n / d)) as int == (d as int) * ((n / d) as int));
    assert(divides(n / d, n));
    lemma_divisor_le(n / d, n);
}

/// A number at least 2 with no divisor below a bound whose square exceeds it
/// is prime: any factorization would need a factor on each side of the
/// square root.
pub proof fn lemma_prime_from_no_small_factor(n: nat, bound: nat)
    requires
        n >= 2,
        bound >= 2,
        bound * bound > n,
        forall|d: nat| 2 <= d < bound ==> !(#[trigger] divides(d, n)),
    ensures
        is_prime(n),
{
    assert forall|d: nat| 2 <= d < n implies !(#[trigger] divides(d, n)) by {
        if divides(d, n) && d >= bound {
            lemma_cofactor(d, n);
            let e = n / d;
            assert(e < bound) by (nonlinear_arith)
                requires
                    n == d * e,
                    d >= bound,
                    bound * bound > n,
                    e >= 1,
            ;
            assert(e >= 2) by {
                if e == 1 {
                    assert(n == d * 1 == d) by (nonlinear_arith)
                        requires
                            n == d * e,
                            e == 1,
                    ;
                }
            }
        }
    }
}

/// Bezout coefficients: some integer combination of `a` and `b` equals a
/// common divisor of the two.
pub proof fn lemma_bezout(a: nat, b: nat) -> (r: (int, int, nat))
    requires
        a >= 1,
    ensures
        ({
            let (x, y, g) = r;
            &&& g >= 1
            &&& divides(g, a)
            &&& divides(g, b)
            &&& x * (a as int) + y * (b as int) == g as int
        }),
    decreases b,
{
    if b == 0 {
        lemma_mod_self_0(a as int);
        assert(divides(a, a));
        assert(divides(a, 0));
        (1int, 0int, a)
    } else {
        lemma_mod_division_less_than_divisor(a as int, b as int);
        let (x1, y1, g) = lemma_bezout(b, a % b);
        lemma_fundamental_div_mod(a as int, b as int);
        let q = a as int / b as int;
        let x = y1;
        let y = x1 - y1 * q;
        assert(x * (a as int) + y * (b as int) == g as int) by (nonlinear_arith)
            requires
                a as int == (b as int) * q + (a % b) as int,
                x1 * (b as int) + y1 * ((a % b) as int) == g as int,
                x == y1,
                y == x1 - y1 * q,
        ;
        assert(divides(g, a)) by {
            lemma_fundamental_div_mod(b as int, g as int);
            lemma_fundamental_div_mod((a % b) as int, g as int);
            let kb = b as int / g as int;
            let kr = (a % b) as int / g as int;
            assert(a as int == (kb * q + kr) * (g as int)) by (nonlinear_arith)
                requires
                    a as int == (b as int) * q + (a % b) as int,
                    b as int == (g as int) * kb,
                    (a % b) as int == (g as int) * kr,
            ;
            lemma_mod_multiples_basic(kb * q + kr, g as int);
        }
        (x, y, g)
    }
}

/// Euclid's lemma: a prime that divides a product but not the first factor
/// divides the second.
pub proof fn lemma_euclid(p: nat, a: nat, b: nat)
    requires
        is_prime(p),
        !divides(p, a),
        divides(p, a * b),
    ensures
        divides(p, b),
{
    assert(a >= 1) by {
        if a == 0 {
            lemma_small_mod(0, p);
        }
    }
    let (x, y, g) = lemma_bezout(p, a);
    lemma_divisor_le(g, p);
    if g == p {
        assert(divides(p, a));
        assert(false);
    }
    if 2 <= g < p {
        assert(divides(g, p));
        assert(false);
    }
    assert(g == 1);
    lemma_fundamental_div_mod((a * b) as int, p as int);
    let t = ((a * b) / p) as int;
    assert(b as int == (p as int) * (x * (b as int) + y * t)) by (nonlinear_arith)
        requires
            x * (p as int) + y * (a as int) == 1int,
            (a as int) * (b as int) == (p as int) * t,
    ;
    lemma_mod_multiples_basic(x * (b as int) + y * t, p as int);
}

/// Every positive power of `b >= 1` is positive.
pub proof fn lemma_pow_nat_positive(b: nat, e: nat)
    requires
        b >= 1,
    ensures
        pow_nat(b, e) >= 1,
    decreases e,
{
    if e > 0 {
        lemma_pow_nat_positive(b, (e - 1) as nat);
        assert(pow_nat(b, e) == b * pow_nat(b, (e - 1) as nat));
        assert(b * pow_nat(b, (e - 1) as nat) >= 1) by (nonlinear_arith)
            requires
                b >= 1,
                pow_nat(b, (e - 1) as nat) >= 1,
        ;
    }
}

/// Powers multiply when exponents add.
pub proof fn lemma_pow_nat_adds(b: nat, e1: nat, e2: nat)
    ensures
        pow_nat(b, e1 + e2) == pow_nat(b, e1) * pow_nat(b, e2),
    decreases e1,
{
    if e1 == 0 {
        assert(pow_nat(b, e2) == 1 * pow_nat(b, e2)) by (nonlinear_arith);
    } else {
        lemma_pow_nat_adds(b, (e1 - 1) as nat, e2);
        assert((e1 + e2 - 1) as nat == ((e1 - 1) as nat) + e2);
        assert(pow_nat(b, e1 + e2) == b * pow_nat(b, ((e1 - 1) as nat) + e2));
        assert(b * (pow_nat(b, (e1 - 1) as nat) * pow_nat(b, e2)) == (b * pow_nat(
            b,
            (e1 - 1) as nat,
        )) * pow_nat(b, e2)) by (nonlinear_arith);
    }
}

/// A base at least 1 divides each of its positive powers.
pub proof fn lemma_base_divides_pow(b: nat, e: nat)
    requires
        b >= 1,
        e >= 1,
    ensures
        divides(b, pow_nat(b, e)),
{
    lemma_pow_nat_positive(b, (e - 1) as nat);
    assert(pow_nat(b, e) == b * pow_nat(b, (e - 1) as nat));
    lemma_mod_multiples_basic(pow_nat(b, (e - 1) as nat) as int, b as int);
    assert((pow_nat(b, (e - 1) as nat) as int) * (b as int) == (b * pow_nat(
        b,
        (e - 1) as nat,
    )) as int) by (nonlinear_arith);
}

/// Two distinct primes do not divide each other.
pub proof fn lemma_distinct_primes_coprime(p: nat, q: nat)
    requires
        is_prime(p),
        is_prime(q),
        p != q,
    ensures
        !divides(p, q),
{
    if divides(p, q) {
        lemma_divisor_le(p, q);
        assert(2 <= p < q);
        assert(!divides(p, q));
    }
}

/// A prime power has exactly one prime base.
pub proof fn lemma_prime_power_base_unique(n: nat, p: nat, q: nat)
    requires
        is_prime_power_with_base(n, p),
        is_prime_power_with_base(n, q),
    ensures
        p == q,
{
    let j = choose|k: nat| 1 <= k && #[trigger] pow_nat(p, k) == n;
    let k = choose|k2: nat| 1 <= k2 && #[trigger] pow_nat(q, k2) == n;
    lemma_base_divides_pow(p, j);
    assert(divides(p, pow_nat(q, k)));
    lemma_prime_divides_prime_power(p, q, k);
}

/// A number that splits as a positive power of a prime times a cofactor at
/// least 2 that the prime does not divide is no prime power at all: the
/// cofactor carries a second prime.
pub proof fn lemma_two_factor_not_prime_power(n: nat, p: nat, j: nat, m: nat)
    requires
        is_prime(p),
        j >= 1,
        m >= 2,
        !divides(p, m),
        n == pow_nat(p, j) * m,
    ensures
        forall|q: nat| !is_prime_power_with_base(n, q),
{
    assert forall|q: nat| !is_prime_power_with_base(n, q) by {
        if is_prime_power_with_base(n, q) {
            let k = choose|k: nat| 1 <= k && #[trigger] pow_nat(q, k) == n;
            lemma_pow_nat_positive(p, (j - 1) as nat);
            assert(pow_nat(p, j) == p * pow_nat(p, (j - 1) as nat));
            assert(n == (pow_nat(p, (j - 1) as nat) * m) * p) by (nonlinear_arith)
                requires
                    n == (p * pow_nat(p, (j - 1) as nat)) * m,
            ;
            lemma_mod_multiples_basic((pow_nat(p, (j - 1) as nat) * m) as int, p as int);
            assert(divides(p, n));
            lemma_prime_divides_prime_power(p, q, k);
            assert(p == q);
            lemma_pow_nat_positive(p, j);
            lemma_pow_nat_positive(p, k);
            if j < k {
                lemma_pow_nat_adds(p, j, (k - j) as nat);
                assert(m == pow_nat(p, (k - j) as nat)) by (nonlinear_arith)
                    requires
                        pow_nat(p, j) * m == pow_nat(p, j) * pow_nat(p, (k - j) as nat),
                        pow_nat(p, j) >= 1,
                ;
                lemma_base_divides_pow(p, (k - j) as nat);
                assert(divides(p, m));
            } else {
                lemma_pow_nat_adds(p, k, (j - k) as nat);
                lemma_pow_nat_positive(p, (j - k) as nat);
                assert(pow_nat(p, (j - k) as nat) * m == 1) by (nonlinear_arith)
                    requires
                        (pow_nat(p, k) * pow_nat(p, (j - k) as nat)) * m == pow_nat(p, k),
                        pow_nat(p, k) >= 1,
                ;
                assert(m <= 1) by (nonlinear_arith)
                    requires
                        pow_nat(p, (j - k) as nat) * m == 1,
                        pow_nat(p, (j - k) as nat) >= 1,
                ;
            }
            assert(false);
        }
    }
}

/// A prime dividing a positive power of a prime is that prime.
pub proof fn lemma_prime_divides_prime_power(p: nat, q: nat, k: nat)
    requires
        is_prime(p),
        is_prime(q),
        k >= 1,
        divides(p, pow_nat(q, k)),
    ensures
        p == q,
    decreases k,
{
    if p != q {
        lemma_distinct_primes_coprime(p, q);
        assert(pow_nat(q, k) == q * pow_nat(q, (k - 1) as nat));
        lemma_euclid(p, q, pow_nat(q, (k - 1) as nat));
        if k == 1 {
            assert(pow_nat(q, 0) == 1);
            lemma_divisor_le(p, 1);
            assert(false);
        } else {
            lemma_prime_divides_prime_power(p, q, (k - 1) as nat);
        }
    }
}

} // verus!
