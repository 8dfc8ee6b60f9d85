use vstd::prelude::*;

verus! {

/// The sum of a sequence of amounts.
pub open spec fn sum(amounts: Seq<nat>) -> nat
    decreases amounts.len(),
{
    if amounts.len() == 0 {
        0
    } else {
        sum(amounts.drop_last()) + amounts.last()
    }
}

/// One more amount adds to the sum.
pub proof fn lemma_sum_push(amounts: Seq<nat>, amount: nat)
    ensures
        sum(amounts.push(amount)) == sum(amounts) + amount,
{
    assert(amounts.push(amount).drop_last() =~= amounts);
}

/// Replacing one amount changes the sum by the difference.
pub proof fn lemma_sum_update(amounts: Seq<nat>, i: int, amount: nat)
    requires
        0 <= i < amounts.len(),
    ensures
        sum(amounts.update(i, amount)) + amounts[i] == sum(amounts) + amount,
    decreases amounts.len(),
{
    let updated = amounts.update(i, amount);
    if i == amounts.len() - 1 {
        assert(updated.drop_last() =~= amounts.drop_last());
    } else {
        assert(updated.drop_last() =~= amounts.drop_last().update(i, amount));
        lemma_sum_update(amounts.drop_last(), i, amount);
    }
}

/// No amount is larger than the sum.
pub proof fn lemma_sum_bounds(amounts: Seq<nat>, i: int)
    requires
        0 <= i < amounts.len(),
    ensures
        amounts[i] <= sum(amounts),
    decreases amounts.len(),
{
    if i < amounts.len() - 1 {
        lemma_sum_bounds(amounts.drop_last(), i);
    }
}

/// The sum of the first `n + 1` amounts is the sum of the first `n` and the next one,
/// and no part of the amounts sums to more than the whole.
pub proof fn lemma_sum_take(amounts: Seq<nat>, n: int)
    requires
        0 <= n <= amounts.len(),
    ensures
        n < amounts.len() ==> sum(amounts.take(n + 1)) == sum(amounts.take(n)) + amounts[n],
        sum(amounts.take(n)) <= sum(amounts),
        sum(amounts.take(amounts.len() as int)) == sum(amounts),
    decreases amounts.len() - n,
{
    assert(amounts.take(amounts.len() as int) =~= amounts);
    if n < amounts.len() {
        assert(amounts.take(n + 1).drop_last() =~= amounts.take(n));
        lemma_sum_take(amounts, n + 1);
    }
}

} // verus!
