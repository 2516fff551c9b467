//! The fewest coins that pay an amount.
use vstd::prelude::*;

verus! {

/// The number of denominations.
pub const KINDS: usize = 7;

/// The denomination at place `i`, counted from 0 in rising order.
pub open spec fn coin(i: int) -> nat {
    if i == 0 {
        1
    } else if i == 1 {
        2
    } else if i == 2 {
        5
    } else if i == 3 {
        10
    } else if i == 4 {
        20
    } else if i == 5 {
        50
    } else {
        100
    }
}

/// Whether `value` is one of the denominations.
pub open spec fn is_coin(value: int) -> bool {
    exists|i: int| 0 <= i < KINDS && value == #[trigger] coin(i)
}

/// The sum of the numbers of `s`.
pub open spec fn total(s: Seq<int>) -> int
    decreases s.len(),
{
    if s.len() == 0 {
        0
    } else {
        total(s.drop_last()) + s.last()
    }
}

/// Whether `coins` is a way to pay `amount`: each of them is of one of the
/// denominations, and they add up to the amount.
pub open spec fn pays(coins: Seq<int>, amount: int) -> bool {
    (forall|i: int| 0 <= i < coins.len() ==> is_coin(#[trigger] coins[i])) && total(coins)
        == amount
}

/// The fewest coins that pay `amount` where the last coin is one of the
/// first `k` denominations; `amount + 1`, which is more than any payment
/// needs, where there is no such payment.
pub open spec fn fewest_ending(amount: nat, k: nat) -> nat
    decreases amount, k,
{
    if k == 0 {
        amount + 1
    } else {
        let others = fewest_ending(amount, (k - 1) as nat);
        let last = coin(k - 1);
        if last <= amount && fewest((amount - last) as nat) + 1 < others {
            fewest((amount - last) as nat) + 1
        } else {
            others
        }
    }
}

/// The fewest coins that pay `amount`.
pub open spec fn fewest(amount: nat) -> nat
    decreases amount, KINDS + 1,
{
    if amount == 0 {
        0
    } else {
        fewest_ending(amount, KINDS as nat)
    }
}

/// The fewest coins of the denominations 1, 2, 5, 10, 20, 50 and 100 that
/// pay `amount`.
pub fn dp_rec_mc(amount: u32) -> (count: u32)
    requires
        amount < u32::MAX,
    ensures
        count == fewest(amount as nat),
        count <= amount,
        exists|coins: Seq<int>| pays(coins, amount as int) && coins.len() == count,
        forall|coins: Seq<int>| pays(coins, amount as int) ==> coins.len() >= count,
{
    let denominations: [u32; 7] = [1, 2, 5, 10, 20, 50, 100];
    assert(forall|i: int| 0 <= i < 7 ==> denominations[i] == coin(i));
    let mut min_coins: Vec<u32> = Vec::new();
    let mut filled: u32 = 0;
    while filled <= amount
        invariant
            filled <= amount + 1,
            amount < u32::MAX,
            min_coins.len() == filled,
            forall|a: int| 0 <= a < filled ==> min_coins[a] == amount + 1,
        decreases amount + 1 - filled,
    {
        min_coins.push(amount + 1);
        filled = filled + 1;
    }
    min_coins[0] = 0;
    let mut current: u32 = 1;
    while current <= amount
        invariant
            1 <= current <= amount + 1,
            amount < u32::MAX,
            min_coins.len() == amount + 1,
            forall|i: int| 0 <= i < 7 ==> denominations[i] == coin(i),
            forall|a: int| 0 <= a < current ==> min_coins[a] == fewest(a as nat),
            forall|a: int| current <= a <= amount ==> min_coins[a] == amount + 1,
        decreases amount + 1 - current,
    {
        let mut k: usize = 0;
        while k < 7
            invariant
                k <= 7,
                1 <= current <= amount < u32::MAX,
                min_coins.len() == amount + 1,
                forall|i: int| 0 <= i < 7 ==> denominations[i] == coin(i),
                forall|a: int| 0 <= a < current ==> min_coins[a] == fewest(a as nat),
                forall|a: int| current < a <= amount ==> min_coins[a] == amount + 1,
                k == 0 ==> min_coins[current as int] == amount + 1,
                k > 0 ==> min_coins[current as int] == fewest_ending(current as nat, k as nat),
                k > 0 ==> min_coins[current as int] <= current,
            decreases 7 - k,
        {
            let value: u32 = denominations[k];
            if value <= current {
                let remaining: usize = (current - value) as usize;
                proof {
                    lemma_fewest_bound(remaining as nat);
                    assert(value == coin(k as int));
                    assert(min_coins[remaining as int] == fewest(remaining as nat));
                    assert(fewest_ending(current as nat, 0) == current + 1);
                }
                let through: u32 = min_coins[remaining] + 1;
                let so_far: u32 = min_coins[current as usize];
                if through < so_far {
                    min_coins[current as usize] = through;
                }
            }
            k = k + 1;
        }
        current = current + 1;
    }
    proof {
        lemma_fewest_bound(amount as nat);
        lemma_fewest_is_paid(amount as nat);
        assert forall|coins: Seq<int>| pays(coins, amount as int) implies coins.len() >= fewest(
            amount as nat,
        ) by {
            lemma_fewest_is_least(coins, amount as nat);
        }
    }
    min_coins[amount as usize]
}

/// Coins of the denomination 1 pay any amount, so the fewest coins that pay
/// an amount are no more than the amount.
pub proof fn lemma_fewest_bound(amount: nat)
    ensures
        fewest(amount) <= amount,
        amount > 0 ==> fewest(amount) >= 1,
    decreases amount,
{
    if amount > 0 {
        lemma_fewest_bound((amount - 1) as nat);
        lemma_fewest_ending_bound(amount, KINDS as nat);
    }
}

/// With the denomination 1 among its last coins, the fewest coins that pay
/// an amount are no more than the amount, and they are never fewer than 1.
proof fn lemma_fewest_ending_bound(amount: nat, k: nat)
    requires
        amount > 0,
        fewest((amount - 1) as nat) <= amount - 1,
    ensures
        k >= 1 ==> fewest_ending(amount, k) <= amount,
        fewest_ending(amount, k) >= 1,
    decreases k,
{
    if k > 0 {
        lemma_fewest_ending_bound(amount, (k - 1) as nat);
        if k == 1 {
            assert(fewest_ending(amount, 0) == amount + 1);
        }
    }
}

/// The fewest coins that end with one of the first `k` denominations are no
/// more than a payment through any one of these denominations needs.
proof fn lemma_fewest_ending_least(amount: nat, k: nat, i: int)
    requires
        0 <= i < k,
        coin(i) <= amount,
    ensures
        fewest_ending(amount, k) <= fewest((amount - coin(i)) as nat) + 1,
    decreases k,
{
    if i < k - 1 {
        lemma_fewest_ending_least(amount, (k - 1) as nat, i);
    }
}

/// The fewest coins that end with one of the first `k` denominations are
/// what a payment through one of them needs, unless there is none.
proof fn lemma_fewest_ending_witness(amount: nat, k: nat) -> (i: int)
    requires
        fewest_ending(amount, k) <= amount,
    ensures
        0 <= i < k,
        coin(i) <= amount,
        fewest_ending(amount, k) == fewest((amount - coin(i)) as nat) + 1,
    decreases k,
{
    if k == 0 {
        0
    } else {
        let others = fewest_ending(amount, (k - 1) as nat);
        let last = coin(k - 1);
        if last <= amount && fewest((amount - last) as nat) + 1 < others {
            k - 1
        } else {
            lemma_fewest_ending_witness(amount, (k - 1) as nat)
        }
    }
}

/// There is a way to pay `amount` with as many coins as `fewest` says.
pub proof fn lemma_fewest_is_paid(amount: nat)
    ensures
        exists|coins: Seq<int>| pays(coins, amount as int) && coins.len() == fewest(amount),
    decreases amount,
{
    if amount == 0 {
        let none = Seq::<int>::empty();
        assert(pays(none, 0) && none.len() == 0);
    } else {
        lemma_fewest_bound(amount);
        let i = lemma_fewest_ending_witness(amount, KINDS as nat);
        let rest = (amount - coin(i)) as nat;
        lemma_fewest_is_paid(rest);
        let before = choose|coins: Seq<int>|
            pays(coins, rest as int) && coins.len() == fewest(rest);
        let coins = before.push(coin(i) as int);
        assert(coins.drop_last() =~= before);
        assert forall|j: int| 0 <= j < coins.len() implies is_coin(#[trigger] coins[j]) by {
            if j < before.len() {
                assert(coins[j] == before[j]);
            }
        }
        assert(pays(coins, amount as int) && coins.len() == fewest(amount));
    }
}

/// No way to pay `amount` has fewer coins than `fewest` says.
pub proof fn lemma_fewest_is_least(coins: Seq<int>, amount: nat)
    requires
        pays(coins, amount as int),
    ensures
        coins.len() >= fewest(amount),
    decreases coins.len(),
{
    if coins.len() == 0 {
        assert(amount == 0);
    } else {
        let last = coins.last();
        let before = coins.drop_last();
        assert(is_coin(coins[coins.len() - 1]));
        let i = choose|i: int| 0 <= i < KINDS && last == #[trigger] coin(i);
        assert forall|j: int| 0 <= j < before.len() implies is_coin(#[trigger] before[j]) by {
            assert(before[j] == coins[j]);
        }
        lemma_total_of_coins(before);
        let rest = (amount - last) as nat;
        lemma_fewest_is_least(before, rest);
        lemma_fewest_ending_least(amount, KINDS as nat, i);
    }
}

/// Coins add up to no less than nothing.
proof fn lemma_total_of_coins(coins: Seq<int>)
    requires
        forall|i: int| 0 <= i < coins.len() ==> is_coin(#[trigger] coins[i]),
    ensures
        total(coins) >= 0,
    decreases coins.len(),
{
    if coins.len() > 0 {
        let before = coins.drop_last();
        assert forall|j: int| 0 <= j < before.len() implies is_coin(#[trigger] before[j]) by {
            assert(before[j] == coins[j]);
        }
        lemma_total_of_coins(before);
        assert(is_coin(coins[coins.len() - 1]));
    }
}

} // verus!
