//! Odd composite numbers that are no sum of a prime and twice a square.
//!
//! Goldbach supposed that every odd composite number is the sum of a prime
//! and twice a square.  Two exceptions are known, 5777 and 5993.
use vstd::prelude::*;
use crate::primes::{is_prime, lemma_divisor_denies_prime, lemma_small_divisor};
use crate::text::{decimal_digits, push_comma, push_decimal};

verus! {

/// Whether `n` is the sum of a prime and twice the square of a number from
/// 1 on.
pub open spec fn is_prime_plus_twice_square(n: nat) -> bool {
    exists|k: nat| k >= 1 && 2 * k * k < n && is_prime((n - #[trigger] (2 * k * k)) as nat)
}

/// Whether `n` is an exception: an odd composite number from 9 on that is
/// no sum of a prime and twice a square.
pub open spec fn is_exception(n: nat) -> bool {
    &&& n >= 9
    &&& n % 2 == 1
    &&& !is_prime(n)
    &&& !is_prime_plus_twice_square(n)
}

/// Whether `n` is the least exception above `floor`.
pub open spec fn is_least_exception_above(n: nat, floor: nat) -> bool {
    &&& n > floor
    &&& is_exception(n)
    &&& forall|m: nat| floor < m < n ==> !is_exception(m)
}

/// The least exception above `floor`.
pub open spec fn least_exception_above(floor: nat) -> nat {
    choose|n: nat| is_least_exception_above(n, floor)
}

/// The largest number that the search for exceptions comes to.
pub const SEARCH_END: u32 = 5993;

/// Tells whether `n` is a prime, by trying the divisors whose square is not
/// above `n`.
pub fn is_prime_number(n: u32) -> (prime: bool)
    requires
        n <= 0x7fff_ffff,
    ensures
        prime == is_prime(n as nat),
{
    if n < 2 {
        return false;
    }
    let mut i: u32 = 2;
    while i <= n / i
        invariant
            2 <= i <= n,
            2 <= n <= 0x7fff_ffff,
            forall|d: nat| 2 <= d < i ==> #[trigger] (n as nat % d) != 0,
        decreases n - i,
    {
        proof {
            assert(i < n) by (nonlinear_arith)
                requires
                    2 <= i <= n / i,
            ;
        }
        if n % i == 0 {
            assert(n as nat % (i as nat) == 0);
            return false;
        }
        i = i + 1;
    }
    proof {
        assert(i * i > n) by (nonlinear_arith)
            requires
                i > n / i,
                i >= 2,
        ;
        assert forall|d: nat| 2 <= d < n implies #[trigger] (n as nat % d) != 0 by {
            if n as nat % d == 0 {
                let e = lemma_small_divisor(n as nat, d, i as nat);
                assert(n as nat % e != 0);
            }
        }
    }
    true
}

/// Tells whether `n` is the sum of a prime and twice a square.
pub fn can_be_expressed(n: u32) -> (expressed: bool)
    requires
        n <= 0x7fff_ffff,
    ensures
        expressed == is_prime_plus_twice_square(n as nat),
{
    let mut k: u32 = 1;
    while 2 * k * k < n
        invariant
            1 <= k <= 32768,
            n <= 0x7fff_ffff,
            2 * k * k <= 0x8000_0000,
            forall|j: nat|
                1 <= j < k && 2 * j * j < n ==> !is_prime((n - #[trigger] (2 * j * j)) as nat),
        decreases 32768 - k,
    {
        let remainder: u32 = n - 2 * k * k;
        if is_prime_number(remainder) {
            assert(is_prime((n as nat - 2 * (k as nat) * (k as nat)) as nat));
            return true;
        }
        proof {
            assert(k < 32768 && 2 * (k + 1) * (k + 1) <= 0x8000_0000) by (nonlinear_arith)
                requires
                    2 * k * k < 0x7fff_ffff,
                    k >= 1,
            ;
        }
        k = k + 1;
    }
    proof {
        assert forall|j: nat| j >= 1 && 2 * j * j < n implies !is_prime(
            (n - #[trigger] (2 * j * j)) as nat,
        ) by {
            if j >= k {
                assert(2 * j * j >= 2 * k * k) by (nonlinear_arith)
                    requires
                        j >= k,
                        k >= 1,
                ;
            }
        }
    }
    false
}

/// The two smallest exceptions, which are at most 5777 and 5993.
pub fn first_exceptions() -> (found: (u32, u32))
    ensures
        found.0 == least_exception_above(0),
        found.1 == least_exception_above(found.0 as nat),
        9 <= found.0 <= 5777,
        found.0 < found.1 <= SEARCH_END,
{
    let mut results: Vec<u32> = Vec::new();
    let mut current: u32 = 9;
    proof {
        lemma_5777_is_exception();
        lemma_5993_is_exception();
    }
    while results.len() < 2
        invariant
            9 <= current <= SEARCH_END + 2,
            current % 2 == 1,
            is_exception(5777),
            is_exception(5993),
            results.len() <= 2,
            forall|i: int| 0 <= i < results.len() ==> is_exception(#[trigger] results[i] as nat),
            forall|i: int| 0 <= i < results.len() ==> #[trigger] results[i] < current,
            forall|i: int, j: int| 0 <= i < j < results.len() ==> results[i] < results[j],
            forall|c: nat|
                c < current && is_exception(c) ==> exists|i: int|
                    0 <= i < results.len() && #[trigger] results[i] == c,
            results.len() < 2 ==> current <= SEARCH_END,
        decreases SEARCH_END + 2 - current,
    {
        let ghost before = results@;
        if !is_prime_number(current) && !can_be_expressed(current) {
            results.push(current);
        }
        proof {
            assert forall|c: nat| c < current + 2 && is_exception(c) implies exists|i: int|
                0 <= i < results.len() && #[trigger] results[i] == c by {
                if c < current {
                    let i = choose|i: int| 0 <= i < before.len() && #[trigger] before[i] == c;
                    assert(results[i] == c);
                } else if c == current {
                    assert(results[results.len() - 1] == c);
                }
            }
            if results.len() < 2 && current + 2 > SEARCH_END {
                let i = choose|i: int| 0 <= i < results.len() && #[trigger] results[i] == 5777;
                let j = choose|j: int| 0 <= j < results.len() && #[trigger] results[j] == 5993;
                assert(false);
            }
        }
        current = current + 2;
    }
    let first: u32 = results[0];
    let second: u32 = results[1];
    proof {
        assert(first <= 5777) by {
            if first > 5777 {
                let i = choose|i: int| 0 <= i < results.len() && #[trigger] results[i] == 5777;
                assert(results[0] <= results[i]);
            }
        }
        assert forall|m: nat| 0 < m < first implies !is_exception(m) by {
            if is_exception(m) {
                let i = choose|i: int| 0 <= i < results.len() && #[trigger] results[i] == m;
                assert(results[0] <= results[i]);
            }
        }
        assert forall|m: nat| first < m < second implies !is_exception(m) by {
            if is_exception(m) {
                let i = choose|i: int| 0 <= i < results.len() && #[trigger] results[i] == m;
                assert(i == 0 || i == 1);
            }
        }
        lemma_least_is_unique(first as nat, 0);
        lemma_least_is_unique(second as nat, first as nat);
    }
    (first, second)
}

/// The two smallest odd composite numbers that are no sum of a prime and
/// twice a square, in decimal notation with a comma between them.
pub fn goldbach_conjecture() -> (text: String)
    ensures
        text@ == decimal_digits(least_exception_above(0)) + seq![','] + decimal_digits(
            least_exception_above(least_exception_above(0)),
        ),
{
    let (first, second) = first_exceptions();
    let mut text = String::new();
    push_decimal(&mut text, first as u64);
    push_comma(&mut text);
    push_decimal(&mut text, second as u64);
    assert(text@ =~= decimal_digits(first as nat) + seq![','] + decimal_digits(second as nat));
    text
}

/// There is one least exception above a floor and no other.
pub proof fn lemma_least_is_unique(n: nat, floor: nat)
    requires
        is_least_exception_above(n, floor),
    ensures
        least_exception_above(floor) == n,
{
    let other = least_exception_above(floor);
    assert(is_least_exception_above(other, floor));
    if other < n {
        assert(!is_exception(other));
    } else if n < other {
        assert(!is_exception(n));
    }
}

/// 5777 is an exception: it is 53 times 109, and 5777 less twice a square is
/// never a prime.
pub proof fn lemma_5777_is_exception()
    ensures
        is_exception(5777),
{
    lemma_divisor_denies_prime(5777, 53);
    assert forall|k: nat| k >= 1 && 2 * k * k < 5777 implies !is_prime(
        (5777 - #[trigger] (2 * k * k)) as nat,
    ) by {
        if k == 1 {
            lemma_divisor_denies_prime(5775, 3);
        } else if k == 2 {
            lemma_divisor_denies_prime(5769, 3);
        } else if k == 3 {
            lemma_divisor_denies_prime(5759, 13);
        } else if k == 4 {
            lemma_divisor_denies_prime(5745, 3);
        } else if k == 5 {
            lemma_divisor_denies_prime(5727, 3);
        } else if k == 6 {
            lemma_divisor_denies_prime(5705, 5);
        } else if k == 7 {
            lemma_divisor_denies_prime(5679, 3);
        } else if k == 8 {
            lemma_divisor_denies_prime(5649, 3);
        } else if k == 9 {
            lemma_divisor_denies_prime(5615, 5);
        } else if k == 10 {
            lemma_divisor_denies_prime(5577, 3);
        } else if k == 11 {
            lemma_divisor_denies_prime(5535, 3);
        } else if k == 12 {
            lemma_divisor_denies_prime(5489, 11);
        } else if k == 13 {
            lemma_divisor_denies_prime(5439, 3);
        } else if k == 14 {
            lemma_divisor_denies_prime(5385, 3);
        } else if k == 15 {
            lemma_divisor_denies_prime(5327, 7);
        } else if k == 16 {
            lemma_divisor_denies_prime(5265, 3);
        } else if k == 17 {
            lemma_divisor_denies_prime(5199, 3);
        } else if k == 18 {
            lemma_divisor_denies_prime(5129, 23);
        } else if k == 19 {
            lemma_divisor_denies_prime(5055, 3);
        } else if k == 20 {
            lemma_divisor_denies_prime(4977, 3);
        } else if k == 21 {
            lemma_divisor_denies_prime(4895, 5);
        } else if k == 22 {
            lemma_divisor_denies_prime(4809, 3);
        } else if k == 23 {
            lemma_divisor_denies_prime(4719, 3);
        } else if k == 24 {
            lemma_divisor_denies_prime(4625, 5);
        } else if k == 25 {
            lemma_divisor_denies_prime(4527, 3);
        } else if k == 26 {
            lemma_divisor_denies_prime(4425, 3);
        } else if k == 27 {
            lemma_divisor_denies_prime(4319, 7);
        } else if k == 28 {
            lemma_divisor_denies_prime(4209, 3);
        } else if k == 29 {
            lemma_divisor_denies_prime(4095, 3);
        } else if k == 30 {
            lemma_divisor_denies_prime(3977, 41);
        } else if k == 31 {
            lemma_divisor_denies_prime(3855, 3);
        } else if k == 32 {
            lemma_divisor_denies_prime(3729, 3);
        } else if k == 33 {
            lemma_divisor_denies_prime(3599, 59);
        } else if k == 34 {
            lemma_divisor_denies_prime(3465, 3);
        } else if k == 35 {
            lemma_divisor_denies_prime(3327, 3);
        } else if k == 36 {
            lemma_divisor_denies_prime(3185, 5);
        } else if k == 37 {
            lemma_divisor_denies_prime(3039, 3);
        } else if k == 38 {
            lemma_divisor_denies_prime(2889, 3);
        } else if k == 39 {
            lemma_divisor_denies_prime(2735, 5);
        } else if k == 40 {
            lemma_divisor_denies_prime(2577, 3);
        } else if k == 41 {
            lemma_divisor_denies_prime(2415, 3);
        } else if k == 42 {
            lemma_divisor_denies_prime(2249, 13);
        } else if k == 43 {
            lemma_divisor_denies_prime(2079, 3);
        } else if k == 44 {
            lemma_divisor_denies_prime(1905, 3);
        } else if k == 45 {
            lemma_divisor_denies_prime(1727, 11);
        } else if k == 46 {
            lemma_divisor_denies_prime(1545, 3);
        } else if k == 47 {
            lemma_divisor_denies_prime(1359, 3);
        } else if k == 48 {
            lemma_divisor_denies_prime(1169, 7);
        } else if k == 49 {
            lemma_divisor_denies_prime(975, 3);
        } else if k == 50 {
            lemma_divisor_denies_prime(777, 3);
        } else if k == 51 {
            lemma_divisor_denies_prime(575, 5);
        } else if k == 52 {
            lemma_divisor_denies_prime(369, 3);
        } else if k == 53 {
            lemma_divisor_denies_prime(159, 3);
        } else {
            assert(2 * k * k >= 5832) by (nonlinear_arith)
                requires
                    k >= 54,
            ;
        }
    }
}

/// 5993 is an exception: it is 13 times 461, and 5993 less twice a square is
/// never a prime.
pub proof fn lemma_5993_is_exception()
    ensures
        is_exception(5993),
{
    lemma_divisor_denies_prime(5993, 13);
    assert forall|k: nat| k >= 1 && 2 * k * k < 5993 implies !is_prime(
        (5993 - #[trigger] (2 * k * k)) as nat,
    ) by {
        if k == 1 {
            lemma_divisor_denies_prime(5991, 3);
        } else if k == 2 {
            lemma_divisor_denies_prime(5985, 3);
        } else if k == 3 {
            lemma_divisor_denies_prime(5975, 5);
        } else if k == 4 {
            lemma_divisor_denies_prime(5961, 3);
        } else if k == 5 {
            lemma_divisor_denies_prime(5943, 3);
        } else if k == 6 {
            lemma_divisor_denies_prime(5921, 31);
        } else if k == 7 {
            lemma_divisor_denies_prime(5895, 3);
        } else if k == 8 {
            lemma_divisor_denies_prime(5865, 3);
        } else if k == 9 {
            lemma_divisor_denies_prime(5831, 7);
        } else if k == 10 {
            lemma_divisor_denies_prime(5793, 3);
        } else if k == 11 {
            lemma_divisor_denies_prime(5751, 3);
        } else if k == 12 {
            lemma_divisor_denies_prime(5705, 5);
        } else if k == 13 {
            lemma_divisor_denies_prime(5655, 3);
        } else if k == 14 {
            lemma_divisor_denies_prime(5601, 3);
        } else if k == 15 {
            lemma_divisor_denies_prime(5543, 23);
        } else if k == 16 {
            lemma_divisor_denies_prime(5481, 3);
        } else if k == 17 {
            lemma_divisor_denies_prime(5415, 3);
        } else if k == 18 {
            lemma_divisor_denies_prime(5345, 5);
        } else if k == 19 {
            lemma_divisor_denies_prime(5271, 3);
        } else if k == 20 {
            lemma_divisor_denies_prime(5193, 3);
        } else if k == 21 {
            lemma_divisor_denies_prime(5111, 19);
        } else if k == 22 {
            lemma_divisor_denies_prime(5025, 3);
        } else if k == 23 {
            lemma_divisor_denies_prime(4935, 3);
        } else if k == 24 {
            lemma_divisor_denies_prime(4841, 47);
        } else if k == 25 {
            lemma_divisor_denies_prime(4743, 3);
        } else if k == 26 {
            lemma_divisor_denies_prime(4641, 3);
        } else if k == 27 {
            lemma_divisor_denies_prime(4535, 5);
        } else if k == 28 {
            lemma_divisor_denies_prime(4425, 3);
        } else if k == 29 {
            lemma_divisor_denies_prime(4311, 3);
        } else if k == 30 {
            lemma_divisor_denies_prime(4193, 7);
        } else if k == 31 {
            lemma_divisor_denies_prime(4071, 3);
        } else if k == 32 {
            lemma_divisor_denies_prime(3945, 3);
        } else if k == 33 {
            lemma_divisor_denies_prime(3815, 5);
        } else if k == 34 {
            lemma_divisor_denies_prime(3681, 3);
        } else if k == 35 {
            lemma_divisor_denies_prime(3543, 3);
        } else if k == 36 {
            lemma_divisor_denies_prime(3401, 19);
        } else if k == 37 {
            lemma_divisor_denies_prime(3255, 3);
        } else if k == 38 {
            lemma_divisor_denies_prime(3105, 3);
        } else if k == 39 {
            lemma_divisor_denies_prime(2951, 13);
        } else if k == 40 {
            lemma_divisor_denies_prime(2793, 3);
        } else if k == 41 {
            lemma_divisor_denies_prime(2631, 3);
        } else if k == 42 {
            lemma_divisor_denies_prime(2465, 5);
        } else if k == 43 {
            lemma_divisor_denies_prime(2295, 3);
        } else if k == 44 {
            lemma_divisor_denies_prime(2121, 3);
        } else if k == 45 {
            lemma_divisor_denies_prime(1943, 29);
        } else if k == 46 {
            lemma_divisor_denies_prime(1761, 3);
        } else if k == 47 {
            lemma_divisor_denies_prime(1575, 3);
        } else if k == 48 {
            lemma_divisor_denies_prime(1385, 5);
        } else if k == 49 {
            lemma_divisor_denies_prime(1191, 3);
        } else if k == 50 {
            lemma_divisor_denies_prime(993, 3);
        } else if k == 51 {
            lemma_divisor_denies_prime(791, 7);
        } else if k == 52 {
            lemma_divisor_denies_prime(585, 3);
        } else if k == 53 {
            lemma_divisor_denies_prime(375, 3);
        } else if k == 54 {
            lemma_divisor_denies_prime(161, 7);
        } else {
            assert(2 * k * k >= 6050) by (nonlinear_arith)
                requires
                    k >= 55,
            ;
        }
    }
}

} // verus!
