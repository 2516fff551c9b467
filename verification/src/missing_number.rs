//! The one number that a list of the numbers from 1 to `n` lacks.
use vstd::prelude::*;

verus! {

/// The sum of the numbers of `s`.
pub open spec fn sum_of(s: Seq<i32>) -> int
    decreases s.len(),
{
    if s.len() == 0 {
        0
    } else {
        sum_of(s.drop_last()) + s.last()
    }
}

/// The sum of the numbers from 1 to `n`.
pub open spec fn triangle(n: int) -> int {
    n * (n + 1) / 2
}

/// Whether the numbers of `s` lie between 1 and `n`.
pub open spec fn within(s: Seq<i32>, n: int) -> bool {
    forall|i: int| 0 <= i < s.len() ==> 1 <= #[trigger] s[i] <= n
}

/// Whether no number occurs twice in `s`.
pub open spec fn distinct(s: Seq<i32>) -> bool {
    forall|i: int, j: int| 0 <= i < j < s.len() ==> s[i] != s[j]
}

/// The largest length of a list whose sum of 1 to `n` fits 32 bits with a
/// sign, `n` being one more than the length.
pub const MAX_LENGTH: usize = 46339;

/// The number that `nums` lacks, where `nums` holds all but one of the
/// numbers from 1 to `n`, each once, and `n` is one more than its length:
/// the sum of the numbers from 1 to `n`, less the sum of the list.
pub fn find_missing_number(nums: Vec<i32>) -> (missing: i32)
    requires
        nums.len() <= MAX_LENGTH,
        within(nums@, nums.len() + 1),
    ensures
        missing == triangle(nums.len() + 1) - sum_of(nums@),
        distinct(nums@) ==> 1 <= missing <= nums.len() + 1 && !nums@.contains(missing),
        distinct(nums@) ==> forall|x: i32|
            1 <= x <= nums.len() + 1 && !nums@.contains(x) ==> x == missing,
{
    let n: i32 = nums.len() as i32 + 1;
    assert(n * (n + 1) <= 46340 * 46341) by (nonlinear_arith)
        requires
            1 <= n <= 46340,
    ;
    let expected_sum: i32 = n * (n + 1) / 2;
    let mut actual_sum: i32 = 0;
    let mut i: usize = 0;
    assert(nums@.take(0) =~= Seq::<i32>::empty());
    while i < nums.len()
        invariant
            i <= nums.len() <= MAX_LENGTH,
            n == nums.len() + 1,
            within(nums@, n as int),
            actual_sum == sum_of(nums@.take(i as int)),
            0 <= actual_sum <= i * n,
        decreases nums.len() - i,
    {
        proof {
            let next = nums@.take(i + 1);
            assert(next.drop_last() =~= nums@.take(i as int));
            assert(next.last() == nums[i as int]);
            assert((i + 1) * n == i * n + n) by (nonlinear_arith);
            assert(i * n <= 46339 * 46340) by (nonlinear_arith)
                requires
                    0 <= i <= 46339,
                    1 <= n <= 46340,
            ;
        }
        actual_sum = actual_sum + nums[i];
        i = i + 1;
    }
    proof {
        assert(nums@.take(i as int) =~= nums@);
        assert(nums.len() * n <= 46339 * 46340) by (nonlinear_arith)
            requires
                0 <= nums.len() <= 46339,
                1 <= n <= 46340,
        ;
        if distinct(nums@) {
            lemma_missing_number(nums@, n as int);
        }
    }
    expected_sum - actual_sum
}

/// Taking a number out of a list takes it out of the sum.
pub proof fn lemma_sum_without(s: Seq<i32>, i: int)
    requires
        0 <= i < s.len(),
    ensures
        sum_of(s.remove(i)) == sum_of(s) - s[i],
    decreases s.len(),
{
    let shorter = s.remove(i);
    if i == s.len() - 1 {
        assert(shorter =~= s.drop_last());
    } else {
        lemma_sum_without(s.drop_last(), i);
        assert(shorter.drop_last() =~= s.drop_last().remove(i));
        assert(shorter.last() == s.last());
    }
}

/// Taking a number out of a list of distinct numbers leaves distinct
/// numbers, none of which is the number taken out.
proof fn lemma_remove_keeps_distinct(s: Seq<i32>, i: int)
    requires
        0 <= i < s.len(),
        distinct(s),
    ensures
        distinct(s.remove(i)),
        !s.remove(i).contains(s[i]),
        forall|x: i32| x != s[i] ==> (s.contains(x) <==> s.remove(i).contains(x)),
{
    let shorter = s.remove(i);
    assert forall|a: int, b: int| 0 <= a < b < shorter.len() implies shorter[a] != shorter[b] by {
        let a0 = if a < i {
            a
        } else {
            a + 1
        };
        let b0 = if b < i {
            b
        } else {
            b + 1
        };
        assert(shorter[a] == s[a0] && shorter[b] == s[b0]);
    }
    if shorter.contains(s[i]) {
        let a = choose|a: int| 0 <= a < shorter.len() && shorter[a] == s[i];
        let a0 = if a < i {
            a
        } else {
            a + 1
        };
        assert(shorter[a] == s[a0]);
        if a0 < i {
            assert(s[a0] != s[i]);
        } else {
            assert(s[i] != s[a0]);
        }
    }
    assert forall|x: i32| x != s[i] implies (s.contains(x) <==> shorter.contains(x)) by {
        if s.contains(x) {
            let a = choose|a: int| 0 <= a < s.len() && s[a] == x;
            let a1 = if a < i {
                a
            } else {
                a - 1
            };
            assert(shorter[a1] == x);
        }
        if shorter.contains(x) {
            let a = choose|a: int| 0 <= a < shorter.len() && shorter[a] == x;
            let a0 = if a < i {
                a
            } else {
                a + 1
            };
            assert(s[a0] == x);
        }
    }
}

/// A list of `n` distinct numbers between 1 and `n` holds each of these
/// numbers, and its sum is the sum of the numbers from 1 to `n`.
pub proof fn lemma_full_list(s: Seq<i32>, n: int)
    requires
        s.len() == n,
        within(s, n),
        distinct(s),
    ensures
        sum_of(s) == triangle(n),
        forall|x: i32| 1 <= x <= n ==> s.contains(x),
    decreases n,
{
    if n > 0 {
        assert(triangle(n) == triangle(n - 1) + n) by (nonlinear_arith);
        if exists|i: int| 0 <= i < s.len() && s[i] == n {
            let i = choose|i: int| 0 <= i < s.len() && s[i] == n;
            let shorter = s.remove(i);
            lemma_remove_keeps_distinct(s, i);
            lemma_sum_without(s, i);
            assert forall|j: int| 0 <= j < shorter.len() implies 1 <= #[trigger] shorter[j] <= n
                - 1 by {
                assert(shorter.contains(shorter[j]));
                let j0 = if j < i {
                    j
                } else {
                    j + 1
                };
                assert(shorter[j] == s[j0]);
            }
            lemma_full_list(shorter, n - 1);
            assert forall|x: i32| 1 <= x <= n implies s.contains(x) by {
                if x == n {
                    assert(s[i] == x);
                } else {
                    assert(shorter.contains(x));
                }
            }
        } else {
            // Without `n`, the first `n - 1` numbers already hold each of 1
            // to `n - 1`, and the last number would be one of them again.
            let shorter = s.drop_last();
            assert forall|j: int| 0 <= j < shorter.len() implies 1 <= #[trigger] shorter[j] <= n
                - 1 by {
                assert(shorter[j] == s[j]);
            }
            assert forall|a: int, b: int| 0 <= a < b < shorter.len() implies shorter[a]
                != shorter[b] by {
                assert(shorter[a] == s[a] && shorter[b] == s[b]);
            }
            lemma_full_list(shorter, n - 1);
            let last = s.last();
            assert(1 <= s[n - 1] <= n);
            assert(shorter.contains(last));
            let a = choose|a: int| 0 <= a < shorter.len() && shorter[a] == last;
            assert(s[a] == s[n - 1]);
            assert(false);
        }
    }
}

/// A list of distinct numbers between 1 and `n` that has one number fewer
/// than `n` lacks exactly one of the numbers from 1 to `n`: the sum of
/// these numbers, less the sum of the list.
pub proof fn lemma_missing_number(s: Seq<i32>, n: int)
    requires
        s.len() == n - 1,
        within(s, n),
        distinct(s),
    ensures
        1 <= triangle(n) - sum_of(s) <= n,
        forall|x: i32| x == triangle(n) - sum_of(s) ==> !s.contains(x),
        forall|x: i32| 1 <= x <= n && !s.contains(x) ==> x == triangle(n) - sum_of(s),
    decreases n,
{
    assert(triangle(n) == triangle(n - 1) + n) by (nonlinear_arith);
    if exists|i: int| 0 <= i < s.len() && s[i] == n {
        let i = choose|i: int| 0 <= i < s.len() && s[i] == n;
        let shorter = s.remove(i);
        lemma_remove_keeps_distinct(s, i);
        lemma_sum_without(s, i);
        assert forall|j: int| 0 <= j < shorter.len() implies 1 <= #[trigger] shorter[j] <= n
            - 1 by {
            assert(shorter.contains(shorter[j]));
            let j0 = if j < i {
                j
            } else {
                j + 1
            };
            assert(shorter[j] == s[j0]);
        }
        lemma_missing_number(shorter, n - 1);
    } else {
        assert forall|j: int| 0 <= j < s.len() implies 1 <= #[trigger] s[j] <= n - 1 by {
            assert(1 <= s[j] <= n);
        }
        lemma_full_list(s, n - 1);
        assert forall|x: i32| x == n implies !s.contains(x) by {
            if s.contains(x) {
                let a = choose|a: int| 0 <= a < s.len() && s[a] == x;
                assert(false);
            }
        }
    }
}

} // verus!
