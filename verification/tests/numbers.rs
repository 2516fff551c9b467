use exercises::goldbach::{can_be_expressed, first_exceptions, is_prime_number};
use exercises::prime_factors::{capped_root, sieve_of_eratosthenes};
use exercises::retire::{eligible_months, read_birth, read_policy, Policy};
use exercises::{find_max_prime_factor, goldbach_conjecture, retire_time};

#[test]
fn goldbach_exceptions() {
    assert_eq!(goldbach_conjecture(), "5777,5993");
    assert_eq!(first_exceptions(), (5777, 5993));
}

#[test]
fn primes_by_trial_division() {
    let primes: Vec<u32> = (0..60).filter(|n| is_prime_number(*n)).collect();
    assert_eq!(primes, vec![2, 3, 5, 7, 11, 13, 17, 19, 23, 29, 31, 37, 41, 43, 47, 53, 59]);
    assert!(is_prime_number(2147483647));
    assert!(!is_prime_number(2147117569));
    assert!(!is_prime_number(5777));
    assert!(!is_prime_number(5993));
}

#[test]
fn sums_of_a_prime_and_twice_a_square() {
    // 9 = 7 + 2 * 1, 15 = 7 + 2 * 4, 21 = 3 + 2 * 9, 25 = 7 + 2 * 9.
    for n in [9, 15, 21, 25, 27, 33] {
        assert!(can_be_expressed(n));
    }
    assert!(!can_be_expressed(5777));
    assert!(!can_be_expressed(5993));
    assert!(!can_be_expressed(1));
    assert!(!can_be_expressed(3));
    assert!(can_be_expressed(4));
}

#[test]
fn sieve_lists_the_primes() {
    assert_eq!(sieve_of_eratosthenes(1), Vec::<u64>::new());
    assert_eq!(sieve_of_eratosthenes(2), vec![2]);
    assert_eq!(sieve_of_eratosthenes(3), vec![2, 3]);
    assert_eq!(sieve_of_eratosthenes(4), vec![2, 3]);
    assert_eq!(sieve_of_eratosthenes(30), vec![2, 3, 5, 7, 11, 13, 17, 19, 23, 29]);
    assert_eq!(sieve_of_eratosthenes(49).last(), Some(&47));
    assert_eq!(sieve_of_eratosthenes(1_000_000).len(), 78498);
}

#[test]
fn root_with_a_cap() {
    assert_eq!(capped_root(1, 1000), 1);
    assert_eq!(capped_root(3, 1000), 1);
    assert_eq!(capped_root(4, 1000), 2);
    assert_eq!(capped_root(99, 1000), 9);
    assert_eq!(capped_root(100, 1000), 10);
    assert_eq!(capped_root(1_000_000, 1000), 1000);
    assert_eq!(capped_root(u128::MAX, 1000), 1000);
    assert_eq!(capped_root(u128::MAX, 1), 1);
}

#[test]
fn largest_prime_factor() {
    assert_eq!(find_max_prime_factor(2), 2);
    assert_eq!(find_max_prime_factor(3), 3);
    assert_eq!(find_max_prime_factor(4), 2);
    assert_eq!(find_max_prime_factor(5), 5);
    assert_eq!(find_max_prime_factor(6), 3);
    assert_eq!(find_max_prime_factor(8), 2);
    assert_eq!(find_max_prime_factor(10), 5);
    assert_eq!(find_max_prime_factor(25), 5);
    assert_eq!(find_max_prime_factor(49), 7);
    assert_eq!(find_max_prime_factor(97), 97);
    assert_eq!(find_max_prime_factor(13195), 29);
    assert_eq!(find_max_prime_factor(600851475143), 6857);
    assert_eq!(find_max_prime_factor(1_000_003 * 1_000_003), 1_000_003);
    assert_eq!(find_max_prime_factor(1_000_003 * 1_000_033), 1_000_033);
    assert_eq!(find_max_prime_factor(2 * 3 * 1_000_003 * 1_000_033 * 1_000_037), 1_000_037);
    assert_eq!(find_max_prime_factor(1 << 100), 2);
    assert_eq!(find_max_prime_factor(1_000_000_007), 1_000_000_007);
}

#[test]
fn retirement_without_delay() {
    assert_eq!(retire_time("1963-12", "男职工"), "2023-12,60,0");
    assert_eq!(retire_time("1963-04", "原法定退休年龄55周岁女职工"), "2018-04,55,0");
    assert_eq!(retire_time("1964-02", "原法定退休年龄55周岁女职工"), "2019-02,55,0");
    assert_eq!(retire_time("1974-12", "原法定退休年龄50周岁女职工"), "2024-12,50,0");
}

#[test]
fn retirement_with_delay() {
    assert_eq!(retire_time("1971-04", "原法定退休年龄55周岁女职工"), "2026-08,55.33,4");
    assert_eq!(retire_time("1995-12", "原法定退休年龄50周岁女职工"), "2050-12,55,60");
    assert_eq!(retire_time("1995-12", "男职工"), "2058-12,63,36");
    assert_eq!(retire_time("2000-12", "原法定退休年龄55周岁女职工"), "2058-12,58,36");
    assert_eq!(retire_time("2000-12", "男职工"), "2063-12,63,36");
    assert_eq!(retire_time("1965-12", "男职工"), "2026-03,60.25,3");
    assert_eq!(retire_time("1965-01", "男职工"), "2025-02,60.08,1");
    assert_eq!(retire_time("1967-08", "男职工"), "2028-04,60.67,8");
    assert_eq!(retire_time("1975-01", "原法定退休年龄50周岁女职工"), "2025-02,50.08,1");
}

#[test]
fn retirement_of_an_unknown_group() {
    assert_eq!(retire_time("1965-12", "学生"), "未知");
    assert_eq!(retire_time("1965-12", ""), "未知");
    assert_eq!(read_policy("学生"), None);
    assert_eq!(
        read_policy("男职工"),
        Some(Policy { base_work_years: 60, start_delay_year: 1965, max_delay_months: 36 })
    );
}

#[test]
fn retirement_reads_the_month_of_birth() {
    assert_eq!(read_birth("1965-12"), Some((1965, 12)));
    assert_eq!(read_birth("1965-12-31"), Some((1965, 12)));
    assert_eq!(read_birth("+1965-+1"), Some((1965, 1)));
    assert_eq!(read_birth("0-01"), Some((0, 1)));
    assert_eq!(read_birth("1965"), None);
    assert_eq!(read_birth("1965-"), None);
    assert_eq!(read_birth("1965-13"), None);
    assert_eq!(read_birth("1965-00"), None);
    assert_eq!(read_birth("10000-01"), None);
    assert_eq!(read_birth("196a-01"), None);
    assert_eq!(read_birth(""), None);
}

#[test]
fn retirement_under_a_policy_of_ones_own() {
    let policy = Policy { base_work_years: 10, start_delay_year: 2000, max_delay_months: 2 };
    assert_eq!(exercises::retire::calc((1999, 12), policy), "2009-12,10,0");
    assert_eq!(exercises::retire::calc((2000, 1), policy), "2010-02,10.08,1");
    assert_eq!(exercises::retire::calc((2000, 5), policy), "2010-07,10.17,2");
    assert_eq!(exercises::retire::calc((2003, 11), policy), "2014-01,10.17,2");
    assert_eq!(exercises::retire::calc((5, 3), Policy { base_work_years: 1, start_delay_year: 9, max_delay_months: 0 }), "0006-03,1,0");
    assert_eq!(eligible_months(1975, 3, 1970), 62);
}
