use crate::types::{LotteryError, MAX_DRAWING_NUMBER};
use vstd::prelude::*;
use vstd::relations::{sorted_by, total_ordering};
use vstd::multiset::group_multiset_axioms;
use vstd::seq_lib::{
    group_to_multiset_ensures, lemma_sorted_unique, to_multiset_contains, to_multiset_update,
};

verus! {

/// Six numbers as a ticket or a drawing result stores them: each between 1 and
/// `MAX_DRAWING_NUMBER`, in strictly ascending order, hence without duplicates.
pub open spec fn is_canonical(numbers: Seq<u8>) -> bool {
    &&& numbers.len() == 6
    &&& forall|i: int| 0 <= i < 6 ==> 1 <= #[trigger] numbers[i] <= MAX_DRAWING_NUMBER
    &&& forall|i: int, j: int| 0 <= i < j < 6 ==> numbers[i] < numbers[j]
}

/// Six numbers that a player may pick, in any order: each between 1 and
/// `MAX_DRAWING_NUMBER`, and no number twice.
pub open spec fn is_valid_pick(numbers: Seq<u8>) -> bool {
    &&& numbers.len() == 6
    &&& forall|i: int| 0 <= i < 6 ==> 1 <= #[trigger] numbers[i] <= MAX_DRAWING_NUMBER
    &&& numbers.no_duplicates()
}

/// The order of the numbers.
pub open spec fn at_most() -> spec_fn(u8, u8) -> bool {
    |a: u8, b: u8| a <= b
}

/// The same numbers in ascending order.
pub open spec fn ascending(numbers: Seq<u8>) -> Seq<u8> {
    numbers.sort_by(at_most())
}

/// A sequence in ascending order with the same numbers as `numbers`, each as often,
/// is `ascending(numbers)`.
pub proof fn lemma_ascending_unique(sorted: Seq<u8>, numbers: Seq<u8>)
    requires
        sorted.to_multiset() == numbers.to_multiset(),
        forall|i: int, j: int| 0 <= i < j < sorted.len() ==> sorted[i] <= sorted[j],
    ensures
        sorted == ascending(numbers),
{
    assert(total_ordering(at_most()));
    numbers.lemma_sort_by_ensures(at_most());
    assert(sorted_by(sorted, at_most()));
    lemma_sorted_unique(sorted, ascending(numbers), at_most());
}

/// A valid pick in ascending order is canonical, and only a valid pick is.
pub proof fn lemma_ascending_canonical(numbers: Seq<u8>)
    requires
        numbers.len() == 6,
    ensures
        is_valid_pick(numbers) <==> is_canonical(ascending(numbers)),
{
    broadcast use group_to_multiset_ensures;

    let sorted = ascending(numbers);
    assert(total_ordering(at_most()));
    numbers.lemma_sort_by_ensures(at_most());
    assert(sorted.len() == 6) by {
        assert(sorted.to_multiset().len() == numbers.to_multiset().len());
    }
    assert(forall|i: int, j: int| 0 <= i < j < 6 ==> at_most()(sorted[i], sorted[j]));
    if is_valid_pick(numbers) {
        numbers.lemma_multiset_has_no_duplicates();
        sorted.lemma_multiset_has_no_duplicates_conv();
        assert forall|i: int| 0 <= i < 6 implies 1 <= #[trigger] sorted[i]
            <= MAX_DRAWING_NUMBER by {
            assert(sorted.contains(sorted[i]));
            assert(numbers.contains(sorted[i]));
        }
        assert forall|i: int, j: int| 0 <= i < j < 6 implies sorted[i] < sorted[j] by {
            assert(at_most()(sorted[i], sorted[j]));
        }
    }
    if is_canonical(sorted) {
        assert(sorted.no_duplicates());
        sorted.lemma_multiset_has_no_duplicates();
        numbers.lemma_multiset_has_no_duplicates_conv();
        assert forall|i: int| 0 <= i < 6 implies 1 <= #[trigger] numbers[i]
            <= MAX_DRAWING_NUMBER by {
            assert(numbers.contains(numbers[i]));
            to_multiset_contains(numbers, numbers[i]);
            to_multiset_contains(sorted, numbers[i]);
            assert(sorted.contains(numbers[i]));
        }
    }
}

/// Canonical numbers are their own ascending order.
pub proof fn lemma_canonical_is_ascending(numbers: Seq<u8>)
    requires
        is_canonical(numbers),
    ensures
        ascending(numbers) == numbers,
        is_valid_pick(numbers),
{
    lemma_ascending_unique(numbers, numbers);
    lemma_ascending_canonical(numbers);
}

/// Exchanging two numbers of a sequence changes neither the numbers nor how often each occurs.
proof fn lemma_exchange_keeps_numbers(s: Seq<u8>, i: int, j: int)
    requires
        0 <= i < s.len(),
        0 <= j < s.len(),
    ensures
        s.update(i, s[j]).update(j, s[i]).to_multiset() == s.to_multiset(),
{
    broadcast use group_multiset_axioms;

    let half = s.update(i, s[j]);
    to_multiset_update(s, i, s[j]);
    to_multiset_update(half, j, s[i]);
    to_multiset_contains(s, s[i]);
    to_multiset_contains(s, s[j]);
    assert(s.contains(s[i]));
    assert(s.contains(s[j]));
    assert(half.update(j, s[i]).to_multiset() =~= s.to_multiset());
}

/// Puts six numbers in ascending order.
pub fn sort_numbers(numbers: &[u8; 6]) -> (sorted: [u8; 6])
    ensures
        sorted@ == ascending(numbers@),
{
    let mut a: [u8; 6] = *numbers;
    let mut i: usize = 1;
    while i < 6
        invariant
            1 <= i <= 6,
            a@.to_multiset() == numbers@.to_multiset(),
            forall|p: int, q: int| 0 <= p < q < i ==> a@[p] <= a@[q],
        decreases 6 - i,
    {
        let mut j: usize = i;
        while j > 0 && a[j - 1] > a[j]
            invariant
                0 <= j <= i < 6,
                a@.to_multiset() == numbers@.to_multiset(),
                forall|p: int, q: int| 0 <= p < q <= i && p != j && q != j ==> a@[p] <= a@[q],
                forall|q: int| j < q <= i ==> a@[j as int] <= a@[q],
            decreases j,
        {
            let ghost before = a@;
            let low: u8 = a[j];
            let high: u8 = a[j - 1];
            a[j - 1] = low;
            a[j] = high;
            proof {
                assert(a@ == before.update(j - 1, low).update(j as int, high));
                lemma_exchange_keeps_numbers(before, j - 1, j as int);
            }
            j -= 1;
        }
        i += 1;
    }
    proof {
        lemma_ascending_unique(a@, numbers@);
    }
    a
}

/// Sorts the six picked numbers and accepts them if they are a valid pick.
pub fn validate_numbers(picked_numbers: &[u8; 6]) -> (checked: Result<[u8; 6], LotteryError>)
    ensures
        checked is Ok <==> is_valid_pick(picked_numbers@),
        checked matches Ok(sorted) ==> sorted@ == ascending(picked_numbers@) && is_canonical(
            sorted@,
        ),
        checked matches Err(e) ==> e == LotteryError::InvalidNumbers,
{
    let sorted = sort_numbers(picked_numbers);
    proof {
        lemma_ascending_canonical(picked_numbers@);
    }
    let mut i: usize = 0;
    while i < 6
        invariant
            i <= 6,
            is_valid_pick(picked_numbers@) <==> is_canonical(sorted@),
            forall|k: int| 0 <= k < i ==> 1 <= #[trigger] sorted@[k] <= MAX_DRAWING_NUMBER,
            forall|k: int| 0 < k < i ==> sorted@[k - 1] < #[trigger] sorted@[k],
        decreases 6 - i,
    {
        if sorted[i] < 1 || sorted[i] > MAX_DRAWING_NUMBER {
            assert(!(1 <= sorted@[i as int] <= MAX_DRAWING_NUMBER));
            return Err(LotteryError::InvalidNumbers);
        }
        if i > 0 && sorted[i - 1] >= sorted[i] {
            assert(!(sorted@[i - 1] < sorted@[i as int]));
            return Err(LotteryError::InvalidNumbers);
        }
        i += 1;
    }
    proof {
        lemma_strictly_ascending(sorted@);
    }
    Ok(sorted)
}

/// Tells whether six numbers are canonical: each between 1 and `MAX_DRAWING_NUMBER`, in
/// strictly ascending order.
pub fn check_canonical(numbers: &[u8; 6]) -> (ok: bool)
    ensures
        ok == is_canonical(numbers@),
{
    let mut i: usize = 0;
    while i < 6
        invariant
            i <= 6,
            forall|k: int| 0 <= k < i ==> 1 <= #[trigger] numbers@[k] <= MAX_DRAWING_NUMBER,
            forall|k: int| 0 < k < i ==> numbers@[k - 1] < #[trigger] numbers@[k],
        decreases 6 - i,
    {
        if numbers[i] < 1 || numbers[i] > MAX_DRAWING_NUMBER {
            assert(!(1 <= numbers@[i as int] <= MAX_DRAWING_NUMBER));
            return false;
        }
        if i > 0 && numbers[i - 1] >= numbers[i] {
            assert(!(numbers@[i - 1] < numbers@[i as int]));
            return false;
        }
        i += 1;
    }
    proof {
        lemma_strictly_ascending(numbers@);
    }
    true
}

/// A sequence whose neighbours ascend strictly ascends strictly throughout.
proof fn lemma_strictly_ascending(s: Seq<u8>)
    requires
        forall|k: int| 0 < k < s.len() ==> s[k - 1] < #[trigger] s[k],
    ensures
        forall|i: int, j: int| 0 <= i < j < s.len() ==> s[i] < s[j],
{
    assert forall|i: int, j: int| 0 <= i < j < s.len() implies s[i] < s[j] by {
        lemma_ascends_between(s, i, j);
    }
}

proof fn lemma_ascends_between(s: Seq<u8>, i: int, j: int)
    requires
        forall|k: int| 0 < k < s.len() ==> s[k - 1] < #[trigger] s[k],
        0 <= i < j < s.len(),
    ensures
        s[i] < s[j],
    decreases j - i,
{
    if i + 1 < j {
        lemma_ascends_between(s, i, j - 1);
    }
}

/// Tells whether two sets of six numbers are the same, position by position.
pub fn compare_numbers(n1: &[u8; 6], n2: &[u8; 6]) -> (same: bool)
    ensures
        same <==> n1@ == n2@,
{
    let mut i: usize = 0;
    while i < 6
        invariant
            i <= 6,
            forall|k: int| 0 <= k < i ==> n1@[k] == n2@[k],
        decreases 6 - i,
    {
        if n1[i] != n2[i] {
            return false;
        }
        i += 1;
    }
    assert(n1@ =~= n2@);
    true
}

} // verus!
