//! Primes and divisors.
use vstd::prelude::*;

verus! {

/// Whether `n` is a prime: a number from 2 on that none but 1 and itself
/// divides.
pub open spec fn is_prime(n: nat) -> bool {
    n >= 2 && forall|d: nat| 2 <= d < n ==> #[trigger] (n % d) != 0
}

/// A number with a divisor from 2 on that is not the number itself is no
/// prime.
pub proof fn lemma_divisor_denies_prime(n: nat, d: nat)
    requires
        2 <= d < n,
        n % d == 0,
    ensures
        !is_prime(n),
{
}

/// A number that `d` divides is `d` times the quotient, and the quotient
/// divides it too.
pub proof fn lemma_quotient(n: nat, d: nat)
    requires
        d > 0,
        n % d == 0,
    ensures
        n == d * (n / d),
        n > 0 ==> n / d > 0 && n % (n / d) == 0,
        n / d <= n,
{
    let q = n / d;
    assert(n == d * q) by (nonlinear_arith)
        requires
            n % d == 0,
            q == n / d,
            d > 0,
    ;
    if n > 0 {
        assert(q > 0) by (nonlinear_arith)
            requires
                n == d * q,
                n > 0,
                d > 0,
        ;
        assert(n % q == 0) by (nonlinear_arith)
            requires
                n == d * q,
                q > 0,
        ;
    }
    assert(q <= n) by (nonlinear_arith)
        requires
            n == d * q,
            d > 0,
    ;
}

/// A product is divided by each of its factors.
pub proof fn lemma_factor_divides(a: nat, b: nat)
    requires
        a > 0,
    ensures
        (a * b) % a == 0,
        (b * a) % a == 0,
        (a * b) / a == b,
{
    assert((a * b) % a == 0 && (a * b) / a == b) by (nonlinear_arith)
        requires
            a > 0,
    ;
    assert(b * a == a * b) by (nonlinear_arith);
}

/// What divides a divisor of a number divides the number.
pub proof fn lemma_divides_transitive(a: nat, b: nat, c: nat)
    requires
        a > 0,
        b > 0,
        b % a == 0,
        c % b == 0,
    ensures
        c % a == 0,
{
    lemma_quotient(b, a);
    lemma_quotient(c, b);
    let x = b / a;
    let y = c / b;
    assert(c == a * (x * y)) by (nonlinear_arith)
        requires
            c == b * y,
            b == a * x,
    ;
    lemma_factor_divides(a, x * y);
}

/// A number with a divisor has a divisor whose square is not above it: a
/// number that `d` divides has a divisor below any `bound` whose square is
/// above the number.
pub proof fn lemma_small_divisor(n: nat, d: nat, bound: nat) -> (e: nat)
    requires
        2 <= d < n,
        n % d == 0,
        bound * bound > n,
    ensures
        2 <= e < bound,
        e < n,
        n % e == 0,
{
    lemma_quotient(n, d);
    let q = n / d;
    assert(q >= 2 && q < n) by (nonlinear_arith)
        requires
            n == d * q,
            2 <= d < n,
    ;
    if d < bound {
        d
    } else {
        if q >= bound {
            assert(d * q >= bound * bound) by (nonlinear_arith)
                requires
                    d >= bound,
                    q >= bound,
            ;
        }
        q
    }
}

/// Every number from 2 on has a prime among its divisors.
pub proof fn lemma_prime_divisor(n: nat) -> (p: nat)
    requires
        n >= 2,
    ensures
        is_prime(p),
        n % p == 0,
        p <= n,
    decreases n,
{
    if is_prime(n) {
        assert(n % n == 0) by (nonlinear_arith)
            requires
                n > 0,
        ;
        n
    } else {
        let d = choose|d: nat| 2 <= d < n && #[trigger] (n % d) == 0;
        let p = lemma_prime_divisor(d);
        lemma_divides_transitive(p, d, n);
        p
    }
}

/// A prime that divides a product divides one of its factors.
pub proof fn lemma_prime_divides_factor(p: nat, a: nat, b: nat)
    requires
        is_prime(p),
        (a * b) % p == 0,
    ensures
        a % p == 0 || b % p == 0,
    decreases a,
{
    let r = a % p;
    if r != 0 && b % p != 0 {
        // `r * b` is a multiple of `p` as `a * b` is.
        let q = a / p;
        assert(a == p * q + r) by (nonlinear_arith)
            requires
                q == a / p,
                r == a % p,
                p > 0,
        ;
        assert((r * b) % p == 0) by {
            assert(a * b == r * b + p * (q * b)) by (nonlinear_arith)
                requires
                    a == p * q + r,
            ;
            vstd::arithmetic::div_mod::lemma_mod_multiples_vanish(
                (q * b) as int,
                (r * b) as int,
                p as int,
            );
            assert(p * (q * b) == (p as int) * ((q * b) as int));
            assert((p as int) * ((q * b) as int) + (r * b) as int == (a * b) as int);
        }
        assert(r < p) by (nonlinear_arith)
            requires
                r == a % p,
                p > 0,
        ;
        if a >= p {
            lemma_prime_divides_factor(p, r, b);
            vstd::arithmetic::div_mod::lemma_small_mod(r, p);
        } else {
            // Here `a` is `r`, below `p`.  What remains of `p` after taking
            // out `a` as often as possible is smaller than `a`.
            vstd::arithmetic::div_mod::lemma_small_mod(a, p);
            assert(a == r);
            let s = p % a;
            let t = p / a;
            assert(p == a * t + s) by (nonlinear_arith)
                requires
                    t == p / a,
                    s == p % a,
                    a > 0,
            ;
            if s == 0 {
                // `a` divides the prime `p` and is below it: `a` is 1.
                if a >= 2 {
                    assert(p % a == 0);
                }
                assert(a == 1);
                assert(a * b == b) by (nonlinear_arith)
                    requires
                        a == 1,
                ;
            } else {
                assert((s * b) % p == 0) by {
                    let m = (a * b) / p;
                    lemma_quotient(a * b, p);
                    // s * b = p * b - t * (a * b) = p * (b - t * m).
                    assert(t * m <= b) by (nonlinear_arith)
                        requires
                            a * b == p * m,
                            p == a * t + s,
                            s > 0,
                            a > 0,
                            p > 0,
                    ;
                    let k = (b - t * m) as nat;
                    assert(s * b == p * k) by (nonlinear_arith)
                        requires
                            a * b == p * m,
                            p == a * t + s,
                            k == b - t * m,
                    ;
                    lemma_factor_divides(p, k);
                }
                assert(s < a) by (nonlinear_arith)
                    requires
                        s == p % a,
                        a > 0,
                ;
                lemma_prime_divides_factor(p, s, b);
                vstd::arithmetic::div_mod::lemma_small_mod(s, p);
            }
        }
    }
}

} // verus!
