//! The largest prime among the divisors of a number.
use vstd::prelude::*;
use crate::primes::{
    is_prime, lemma_divides_transitive, lemma_factor_divides, lemma_prime_divides_factor,
    lemma_prime_divisor, lemma_quotient, lemma_small_divisor,
};

verus! {

/// The largest number up to which the small primes are listed.
pub const SIEVE_LIMIT: u64 = 1_000_000;

/// Whether `p` is the largest prime that divides `n`.
pub open spec fn is_largest_prime_factor(p: nat, n: nat) -> bool {
    &&& is_prime(p)
    &&& n % p == 0
    &&& forall|q: nat| is_prime(q) && #[trigger] (n % q) == 0 ==> q <= p
}

/// Whether `primes` lists the primes up to `limit`, each once, in rising
/// order.
pub open spec fn lists_primes_up_to(primes: Seq<u64>, limit: nat) -> bool {
    &&& forall|i: int| 0 <= i < primes.len() ==> is_prime(#[trigger] primes[i] as nat) && primes[i]
        <= limit
    &&& forall|i: int, j: int| 0 <= i < j < primes.len() ==> primes[i] < primes[j]
    &&& forall|p: nat|
        is_prime(p) && p <= limit ==> exists|i: int| 0 <= i < primes.len() && #[trigger] primes[i]
            == p
}

/// Whether `m` is still taken for a prime after the multiples of the
/// numbers below `i` have been struck out: it is 2 or more, and no number
/// from 2 on that is below both `i` and `m` divides it.
pub open spec fn is_unstruck(m: nat, i: nat) -> bool {
    m >= 2 && forall|d: nat| 2 <= d < i && d < m ==> #[trigger] (m % d) != 0
}

/// The primes up to `limit`, in rising order, by the sieve of Eratosthenes:
/// of each number that is still taken for a prime, its multiples from its
/// square on are struck out.
pub fn sieve_of_eratosthenes(limit: u64) -> (primes: Vec<u64>)
    requires
        1 <= limit < usize::MAX,
    ensures
        lists_primes_up_to(primes@, limit as nat),
{
    let size: usize = (limit + 1) as usize;
    let mut is_prime_flag: Vec<bool> = vec![true; size];
    is_prime_flag[0] = false;
    is_prime_flag[1] = false;
    let mut i: u64 = 2;
    while i <= limit / i
        invariant
            2 <= i <= limit + 1,
            1 <= limit < usize::MAX,
            is_prime_flag.len() == limit + 1,
            forall|m: int|
                0 <= m <= limit ==> (#[trigger] is_prime_flag[m] <==> is_unstruck(
                    m as nat,
                    i as nat,
                )),
        decreases limit + 1 - i,
    {
        proof {
            assert(i * i <= limit) by (nonlinear_arith)
                requires
                    2 <= i <= limit / i,
            ;
        }
        if is_prime_flag[i as usize] {
            let mut j: u128 = (i as u128) * (i as u128);
            proof {
                lemma_factor_divides(i as nat, i as nat);
            }
            while j <= limit as u128
                invariant
                    2 <= i,
                    i * i <= j <= limit + i,
                    limit < usize::MAX,
                    j % (i as u128) == 0,
                    is_prime_flag.len() == limit + 1,
                    forall|m: int|
                        0 <= m <= limit ==> (#[trigger] is_prime_flag[m] <==> is_unstruck(
                            m as nat,
                            i as nat,
                        ) && !(m % (i as int) == 0 && i * i <= m < j)),
                decreases limit + i - j,
            {
                let ghost before = is_prime_flag@;
                is_prime_flag[j as usize] = false;
                proof {
                    assert forall|m: int| 0 <= m <= limit implies (#[trigger] is_prime_flag[m]
                        <==> is_unstruck(m as nat, i as nat) && !(m % (i as int) == 0 && i * i
                        <= m < j + i)) by {
                        if m != j {
                            assert(is_prime_flag[m] == before[m]);
                            if m % (i as int) == 0 && j < m {
                                lemma_next_multiple(j as nat, m as nat, i as nat);
                            }
                        }
                    }
                    assert((j + i) % (i as int) == 0) by (nonlinear_arith)
                        requires
                            j % (i as u128) == 0,
                            i > 0,
                    ;
                }
                j = j + i as u128;
            }
            proof {
                assert forall|m: int| 0 <= m <= limit implies (#[trigger] is_prime_flag[m]
                    <==> is_unstruck(m as nat, (i + 1) as nat)) by {
                    lemma_strike_multiples(m as nat, i as nat);
                }
            }
        } else {
            proof {
                assert(!is_unstruck(i as nat, i as nat));
                let d = choose|d: nat| 2 <= d < i && d < i && #[trigger] (i as nat % d) == 0;
                assert forall|m: int| 0 <= m <= limit implies (#[trigger] is_prime_flag[m]
                    <==> is_unstruck(m as nat, (i + 1) as nat)) by {
                    if m > i && m % (i as int) == 0 {
                        lemma_divides_transitive(d, i as nat, m as nat);
                    }
                }
            }
        }
        i = i + 1;
    }
    proof {
        assert(i * i > limit) by (nonlinear_arith)
            requires
                i > limit / i,
                i >= 2,
        ;
    }
    let mut primes: Vec<u64> = Vec::new();
    let mut index: usize = 0;
    while index < is_prime_flag.len()
        invariant
            index <= is_prime_flag.len(),
            is_prime_flag.len() == limit + 1,
            limit < usize::MAX,
            i * i > limit,
            forall|m: int|
                0 <= m <= limit ==> (#[trigger] is_prime_flag[m] <==> is_unstruck(
                    m as nat,
                    i as nat,
                )),
            forall|k: int|
                0 <= k < primes.len() ==> is_prime(#[trigger] primes[k] as nat) && primes[k]
                    < index,
            forall|a: int, b: int| 0 <= a < b < primes.len() ==> primes[a] < primes[b],
            forall|p: nat|
                is_prime(p) && p < index ==> exists|k: int|
                    0 <= k < primes.len() && #[trigger] primes[k] == p,
        decreases is_prime_flag.len() - index,
    {
        let ghost before = primes@;
        proof {
            lemma_unstruck_is_prime(index as nat, i as nat);
        }
        if is_prime_flag[index] {
            primes.push(index as u64);
        }
        proof {
            assert forall|p: nat| is_prime(p) && p < index + 1 implies exists|k: int|
                0 <= k < primes.len() && #[trigger] primes[k] == p by {
                if p < index {
                    let k = choose|k: int| 0 <= k < before.len() && #[trigger] before[k] == p;
                    assert(primes[k] == p);
                } else {
                    assert(primes[primes.len() - 1] == p);
                }
            }
        }
        index = index + 1;
    }
    primes
}

/// The multiple of `i` after the multiple `j` is `j + i`: no multiple lies
/// between them.
proof fn lemma_next_multiple(j: nat, m: nat, i: nat)
    requires
        i > 0,
        j % i == 0,
        m % i == 0,
        j < m,
    ensures
        m >= j + i,
{
    lemma_quotient(j, i);
    lemma_quotient(m, i);
    let a = j / i;
    let b = m / i;
    assert(b > a) by (nonlinear_arith)
        requires
            j == i * a,
            m == i * b,
            j < m,
            i > 0,
    ;
    assert(m >= j + i) by (nonlinear_arith)
        requires
            j == i * a,
            m == i * b,
            b >= a + 1,
            i > 0,
    ;
}

/// Striking out the multiples of `i` from its square on leaves what no
/// number below `i + 1` divides: a smaller multiple of `i` has a divisor
/// below `i` and was struck out before.
proof fn lemma_strike_multiples(m: nat, i: nat)
    requires
        i >= 2,
    ensures
        is_unstruck(m, i) && !(m % i == 0 && i * i <= m) <==> is_unstruck(m, i + 1),
{
    if is_unstruck(m, i) && m % i == 0 && i < m && m < i * i {
        lemma_quotient(m, i);
        let k = m / i;
        assert(2 <= k < i) by (nonlinear_arith)
            requires
                m == i * k,
                i < m < i * i,
                i >= 2,
        ;
        assert(m % k == 0);
        assert(k < m) by (nonlinear_arith)
            requires
                m == i * k,
                i >= 2,
                k >= 1,
        ;
    }
    if m % i == 0 && i * i <= m {
        assert(i < m) by (nonlinear_arith)
            requires
                i * i <= m,
                i >= 2,
        ;
    }
}

/// Once the square of `i` is above `m`, what is still taken for a prime is
/// one.
proof fn lemma_unstruck_is_prime(m: nat, i: nat)
    requires
        i * i > m,
    ensures
        is_unstruck(m, i) <==> is_prime(m),
{
    if is_unstruck(m, i) && !is_prime(m) {
        let d = choose|d: nat| 2 <= d < m && #[trigger] (m % d) == 0;
        let e = lemma_small_divisor(m, d, i);
        assert(m % e != 0);
    }
}

/// The largest number whose square is not above `n`, or `cap` where that
/// number is larger.
pub fn capped_root(n: u128, cap: u64) -> (root: u64)
    requires
        n >= 1,
        cap >= 1,
    ensures
        1 <= root <= cap,
        root * root <= n,
        root < cap ==> (root + 1) * (root + 1) > n,
{
    let mut root: u64 = 1;
    while root < cap && (root as u128 + 1) <= n / (root as u128 + 1)
        invariant
            1 <= root <= cap,
            root * root <= n,
        decreases cap - root,
    {
        proof {
            assert((root + 1) * (root + 1) <= n) by (nonlinear_arith)
                requires
                    root + 1 <= n as int / (root + 1),
                    root >= 1,
            ;
        }
        root = root + 1;
    }
    proof {
        if root < cap {
            assert((root + 1) * (root + 1) > n) by (nonlinear_arith)
                requires
                    root + 1 > n as int / (root + 1),
                    root >= 1,
            ;
        }
    }
    root
}

/// What holds while the prime factors of `whole` are taken out one by
/// one: `n` is what is left of it and `max` the largest prime taken out so
/// far, or 0 before the first; each prime factor of `whole` is at most
/// `max` or still in `n`.
pub open spec fn is_reduced(whole: nat, n: nat, max: nat) -> bool {
    &&& n >= 1
    &&& whole % n == 0
    &&& max == 0 || (is_prime(max) && whole % max == 0)
    &&& forall|p: nat| #[trigger] is_prime(p) && whole % p == 0 ==> p <= max || n % p == 0
}

/// Whether no prime below `bound` divides `n`.
pub open spec fn is_clear_below(n: nat, bound: nat) -> bool {
    forall|q: nat| #[trigger] is_prime(q) && q < bound ==> n % q != 0
}

/// Takes the factor `f` out of `n` as often as it divides it, and makes it
/// the largest prime taken out where it divides `n` at all.
fn take_out(whole: u128, n: u128, max: u128, f: u128) -> (left: (u128, u128))
    requires
        f >= 2,
        is_reduced(whole as nat, n as nat, max as nat),
        is_prime(f as nat) || is_clear_below(n as nat, f as nat),
        n % f == 0 ==> max <= f,
    ensures
        is_reduced(whole as nat, left.0 as nat, left.1 as nat),
        1 <= left.0 <= n,
        left.0 % f != 0,
        n % left.0 == 0,
        n % f != 0 ==> left.0 == n && left.1 == max,
        n % f == 0 ==> left.1 == f,
{
    let mut left: u128 = n;
    let mut largest: u128 = max;
    proof {
        lemma_factor_divides(n as nat, 1);
        assert(n as nat * 1 == n);
    }
    while left % f == 0
        invariant
            f >= 2,
            1 <= left <= n,
            is_reduced(whole as nat, left as nat, largest as nat),
            is_prime(f as nat) || is_clear_below(left as nat, f as nat),
            n % left == 0,
            largest <= f || largest == max,
            n % f != 0 ==> left == n && largest == max,
            n % f == 0 && left != n ==> largest == f,
            n % f == 0 ==> max <= f,
        decreases left,
    {
        proof {
            lemma_take_out(whole as nat, left as nat, largest as nat, f as nat);
            lemma_quotient(left as nat, f as nat);
            lemma_divides_transitive((left / f) as nat, left as nat, n as nat);
            assert(left / f < left) by (nonlinear_arith)
                requires
                    left == f * (left / f),
                    f >= 2,
                    left >= 1,
            ;
        }
        largest = f;
        left = left / f;
    }
    (left, largest)
}

/// Taking the factor `f` out of `n` once keeps what holds while the prime
/// factors are taken out, with `f` as the largest prime taken out.
proof fn lemma_take_out(whole: nat, n: nat, max: nat, f: nat)
    requires
        f >= 2,
        n % f == 0,
        max <= f,
        is_reduced(whole, n, max),
        is_prime(f) || is_clear_below(n, f),
    ensures
        is_prime(f),
        is_reduced(whole, n / f, f),
        is_prime(f) || is_clear_below(n / f, f),
{
    lemma_quotient(n, f);
    let left = n / f;
    if !is_prime(f) {
        let q = lemma_prime_divisor(f);
        lemma_divides_transitive(q, f, n);
        assert(is_prime(q) && q < f);
    }
    lemma_divides_transitive(f, n, whole);
    lemma_divides_transitive(left, n, whole);
    assert forall|p: nat| #[trigger] is_prime(p) && whole % p == 0 implies p <= f || left % p
        == 0 by {
        if p > max {
            assert(n % p == 0);
            assert(n == f * left);
            lemma_prime_divides_factor(p, f, left);
            if f % p == 0 {
                lemma_quotient(f, p);
                assert(p <= f) by (nonlinear_arith)
                    requires
                        f == p * (f / p),
                        f >= 2,
                ;
            }
        }
    }
}

/// What divides no number divides none of its divisors: a divisor of a
/// number that is clear of primes below a bound is so too.
proof fn lemma_divisor_is_clear(n: nat, left: nat, bound: nat)
    requires
        left >= 1,
        n % left == 0,
        is_clear_below(n, bound),
    ensures
        is_clear_below(left, bound),
{
    assert forall|q: nat| #[trigger] is_prime(q) && q < bound implies left % q != 0 by {
        if left % q == 0 {
            lemma_divides_transitive(q, left, n);
        }
    }
}

/// A number that is clear of primes below a bound whose square is above it
/// is 1 or a prime, and not below the bound in the latter case.
proof fn lemma_clear_is_prime(n: nat, bound: nat)
    requires
        n >= 2,
        bound >= 2,
        bound * bound > n,
        is_clear_below(n, bound),
    ensures
        is_prime(n),
        n >= bound,
{
    if !is_prime(n) {
        let d = choose|d: nat| 2 <= d < n && #[trigger] (n % d) == 0;
        let e = lemma_small_divisor(n, d, bound);
        let q = lemma_prime_divisor(e);
        lemma_divides_transitive(q, e, n);
    }
    assert(n % n == 0) by (nonlinear_arith)
        requires
            n > 0,
    ;
}

/// The largest prime that divides `number`.
///
/// The factors 2 and 3 are taken out first, then the primes up to the root
/// of what is left, or up to `SIEVE_LIMIT`, and then the numbers above them
/// in rising order.
pub fn find_max_prime_factor(number: u128) -> (largest: u128)
    requires
        number >= 2,
    ensures
        is_largest_prime_factor(largest as nat, number as nat),
{
    let whole: u128 = number;
    let mut number: u128 = number;
    let mut max_prime: u128 = 0;
    proof {
        assert(whole as nat % (whole as nat) == 0) by (nonlinear_arith)
            requires
                whole > 0,
        ;
        assert(is_clear_below(number as nat, 2));
    }
    let after_two: (u128, u128) = take_out(whole, number, max_prime, 2);
    proof {
        lemma_divisor_is_clear(number as nat, after_two.0 as nat, 2);
        assert(is_clear_below(after_two.0 as nat, 3)) by {
            assert forall|q: nat| #[trigger] is_prime(q) && q < 3 implies after_two.0 as nat % q
                != 0 by {
                assert(q == 2);
            }
        }
    }
    let after_three: (u128, u128) = take_out(whole, after_two.0, after_two.1, 3);
    number = after_three.0;
    max_prime = after_three.1;
    proof {
        lemma_divisor_is_clear(after_two.0 as nat, number as nat, 3);
        assert(is_clear_below(number as nat, 4)) by {
            assert forall|q: nat| #[trigger] is_prime(q) && q < 4 implies number as nat % q
                != 0 by {
                if q != 2 && q != 3 {
                    assert(q < 2);
                }
            }
        }
    }
    let limit: u64 = capped_root(number, SIEVE_LIMIT);
    let small_primes: Vec<u64> = sieve_of_eratosthenes(limit);
    let mut index: usize = 0;
    while index < small_primes.len()
        invariant
            index <= small_primes.len(),
            lists_primes_up_to(small_primes@, limit as nat),
            is_reduced(whole as nat, number as nat, max_prime as nat),
            number >= 1,
            is_clear_below(number as nat, 4),
            forall|k: int|
                0 <= k < index ==> number as nat % (#[trigger] small_primes[k] as nat) != 0,
            max_prime <= 3 || exists|k: int|
                0 <= k < index && #[trigger] small_primes[k] == max_prime,
        decreases small_primes.len() - index,
    {
        let prime: u64 = small_primes[index];
        let ghost before: u128 = number;
        proof {
            if number % (prime as u128) == 0 {
                assert(prime >= 4);
                if max_prime > 3 {
                    let k = choose|k: int|
                        0 <= k < index && #[trigger] small_primes[k] == max_prime;
                    assert(small_primes[k] < small_primes[index as int]);
                }
            }
        }
        let reduced: (u128, u128) = take_out(whole, number, max_prime, prime as u128);
        number = reduced.0;
        max_prime = reduced.1;
        proof {
            lemma_divisor_is_clear(before as nat, number as nat, 4);
            assert forall|k: int| 0 <= k < index + 1 implies number as nat % (
            #[trigger] small_primes[k] as nat) != 0 by {
                if k < index {
                    if number as nat % (small_primes[k] as nat) == 0 {
                        lemma_divides_transitive(
                            small_primes[k] as nat,
                            number as nat,
                            before as nat,
                        );
                    }
                }
            }
            if max_prime > 3 && max_prime != prime {
                let k = choose|k: int| 0 <= k < index && #[trigger] small_primes[k] == max_prime;
                assert(small_primes[k] == max_prime);
            } else if max_prime > 3 {
                assert(small_primes[index as int] == max_prime);
            }
        }
        index = index + 1;
    }
    proof {
        assert(is_clear_below(number as nat, (limit + 1) as nat)) by {
            assert forall|q: nat| #[trigger] is_prime(q) && q < limit + 1 implies number as nat % q
                != 0 by {
                let k = choose|k: int|
                    0 <= k < small_primes.len() && #[trigger] small_primes[k] == q;
                assert(number as nat % (small_primes[k] as nat) != 0);
            }
        }
        if max_prime > 3 {
            let k = choose|k: int| 0 <= k < index && #[trigger] small_primes[k] == max_prime;
            assert(small_primes[k] <= limit);
        }
    }
    let mut factor: u128 = limit as u128 + 1;
    if factor < 4 {
        proof {
            lemma_divisor_is_clear(number as nat, number as nat, 4);
        }
        factor = 4;
    }
    while factor <= number / factor
        invariant
            4 <= factor,
            number >= 1,
            is_reduced(whole as nat, number as nat, max_prime as nat),
            is_clear_below(number as nat, factor as nat),
            max_prime < factor,
        decreases
                (if number > factor {
                    number - factor
                } else {
                    0
                }),
    {
        let ghost before: u128 = number;
        proof {
            assert(factor < number) by (nonlinear_arith)
                requires
                    4 <= factor <= number / factor,
            ;
        }
        let reduced: (u128, u128) = take_out(whole, number, max_prime, factor);
        number = reduced.0;
        max_prime = reduced.1;
        proof {
            lemma_divisor_is_clear(before as nat, number as nat, factor as nat);
            assert(is_clear_below(number as nat, (factor + 1) as nat));
        }
        factor = factor + 1;
    }
    proof {
        assert(factor * factor > number) by (nonlinear_arith)
            requires
                factor > number / factor,
                factor >= 4,
        ;
        if number >= 2 {
            lemma_clear_is_prime(number as nat, factor as nat);
            assert forall|q: nat| is_prime(q) && #[trigger] (whole as nat % q)
                == 0 implies q <= number by {
                if q > max_prime {
                    assert(number as nat % q == 0);
                    lemma_quotient(number as nat, q);
                    assert(q <= number) by (nonlinear_arith)
                        requires
                            number == q * (number as nat / q),
                            number >= 2,
                    ;
                }
            }
        } else {
            let p = lemma_prime_divisor(whole as nat);
            vstd::arithmetic::div_mod::lemma_small_mod(1, p);
            assert(is_prime(p) && p <= max_prime);
            assert forall|q: nat| is_prime(q) && #[trigger] (whole as nat % q)
                == 0 implies q <= max_prime by {
                vstd::arithmetic::div_mod::lemma_small_mod(1, q);
            }
        }
    }
    if number > 1 {
        max_prime = number;
    }
    max_prime
}

} // verus!
