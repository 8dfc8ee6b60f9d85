use crate::numbers::{
    ascending, is_canonical, is_valid_pick, lemma_ascending_canonical, sort_numbers,
};
use crate::random::{get_random_number, random_number};
use crate::types::{Timestamp, MAX_DRAWING_NUMBER};
use vstd::prelude::*;

verus! {

/// The last counter for which a draw derives a candidate from the time. The first is 2.
pub const LAST_COUNTER: u64 = 255;

/// Tells whether `number` can be chosen after `chosen`: it is between 1 and
/// `MAX_DRAWING_NUMBER` and was not chosen before.
pub open spec fn can_choose(chosen: Seq<u8>, number: u8) -> bool {
    1 <= number <= MAX_DRAWING_NUMBER && !chosen.contains(number)
}

/// The numbers chosen once the candidates have been considered in turn, `chosen` having
/// been chosen before: a candidate that was chosen already, or that is out of range, is
/// passed over, any other is chosen, and the choice ends with the sixth number.
pub open spec fn chosen_of(candidates: Seq<u8>, chosen: Seq<u8>) -> Seq<u8>
    decreases candidates.len(),
{
    if chosen.len() >= 6 || candidates.len() == 0 {
        chosen
    } else {
        chosen_of(
            candidates.drop_first(),
            if can_choose(chosen, candidates.first()) {
                chosen.push(candidates.first())
            } else {
                chosen
            },
        )
    }
}

/// The numbers from `from` to `MAX_DRAWING_NUMBER`, in ascending order.
pub open spec fn numbers_from(from: int) -> Seq<u8> {
    Seq::new((MAX_DRAWING_NUMBER + 1 - from) as nat, |i: int| (from + i) as u8)
}

/// The six numbers that a draw on the candidates yields: the first six different
/// candidates, in ascending order. Where the candidates hold fewer than six different
/// numbers, the smallest numbers that they do not hold make up for the rest.
pub open spec fn drawn_from(candidates: Seq<u8>) -> Seq<u8> {
    ascending(chosen_of(numbers_from(1), chosen_of(candidates, Seq::empty())))
}

/// The candidates that a draw at the time `now` considers: the pseudo-random numbers of
/// that time for the counters from 2 to `LAST_COUNTER`.
pub open spec fn timed_candidates(now: Timestamp) -> Seq<u8> {
    Seq::new(
        (LAST_COUNTER - 1) as nat,
        |i: int| random_number(MAX_DRAWING_NUMBER as int, i + 2, now as int) as u8,
    )
}

/// The six numbers that a draw at the time `now` yields.
pub open spec fn drawn_numbers(now: Timestamp) -> Seq<u8> {
    drawn_from(timed_candidates(now))
}

/// What holds of the numbers chosen so far while a draw considers its candidates.
pub open spec fn choice_in_progress(chosen: Seq<u8>) -> bool {
    &&& chosen.len() <= 6
    &&& chosen.no_duplicates()
    &&& forall|i: int| 0 <= i < chosen.len() ==> 1 <= #[trigger] chosen[i] <= MAX_DRAWING_NUMBER
}

/// A sequence without duplicates that holds every number from 1 to `m` has at least `m` items.
proof fn lemma_holds_all_up_to(s: Seq<u8>, m: int)
    requires
        s.no_duplicates(),
        0 <= m <= 255,
        forall|v: u8| 1 <= v <= m ==> s.contains(v),
    ensures
        s.len() >= m,
    decreases m,
{
    if m > 0 {
        let top = m as u8;
        assert(s.contains(top));
        let i = choose|i: int| 0 <= i < s.len() && s[i] == top;
        let rest = s.remove(i);
        assert(rest.no_duplicates());
        assert forall|v: u8| 1 <= v <= m - 1 implies rest.contains(v) by {
            assert(s.contains(v));
            let j = choose|j: int| 0 <= j < s.len() && s[j] == v;
            if j < i {
                assert(rest[j] == v);
            } else {
                assert(rest[j - 1] == v);
            }
        }
        lemma_holds_all_up_to(rest, m - 1);
    }
}

/// Considering one more candidate keeps a choice in progress, and the number is among
/// the chosen ones afterwards if it is in range.
proof fn lemma_choice_step(chosen: Seq<u8>, number: u8)
    requires
        choice_in_progress(chosen),
        chosen.len() < 6,
    ensures
        choice_in_progress(
            if can_choose(chosen, number) {
                chosen.push(number)
            } else {
                chosen
            },
        ),
        1 <= number <= MAX_DRAWING_NUMBER ==> (if can_choose(chosen, number) {
            chosen.push(number)
        } else {
            chosen
        }).contains(number),
        forall|v: u8|
            chosen.contains(v) ==> (if can_choose(chosen, number) {
                chosen.push(number)
            } else {
                chosen
            }).contains(v),
{
    if can_choose(chosen, number) {
        let next = chosen.push(number);
        assert(next[chosen.len() as int] == number);
        assert forall|v: u8| chosen.contains(v) implies next.contains(v) by {
            let j = choose|j: int| 0 <= j < chosen.len() && chosen[j] == v;
            assert(next[j] == v);
        }
    }
}

/// Whatever the candidates, a choice in progress stays in progress.
proof fn lemma_choice_goes_on(candidates: Seq<u8>, chosen: Seq<u8>)
    requires
        choice_in_progress(chosen),
    ensures
        choice_in_progress(chosen_of(candidates, chosen)),
    decreases candidates.len(),
{
    if chosen.len() < 6 && candidates.len() > 0 {
        lemma_choice_step(chosen, candidates.first());
        lemma_choice_goes_on(
            candidates.drop_first(),
            if can_choose(chosen, candidates.first()) {
                chosen.push(candidates.first())
            } else {
                chosen
            },
        );
    }
}

/// A choice in progress that holds every number below `from`, unless it is complete, is
/// completed by the numbers from `from` on.
proof fn lemma_choice_completes(chosen: Seq<u8>, from: int)
    requires
        choice_in_progress(chosen),
        1 <= from <= MAX_DRAWING_NUMBER + 1,
        chosen.len() < 6 ==> forall|v: u8| 1 <= v < from ==> chosen.contains(v),
    ensures
        is_valid_pick(chosen_of(numbers_from(from), chosen)),
    decreases MAX_DRAWING_NUMBER + 1 - from,
{
    let rest = numbers_from(from);
    if chosen.len() >= 6 {
    } else if from > MAX_DRAWING_NUMBER {
        lemma_holds_all_up_to(chosen, MAX_DRAWING_NUMBER as int);
    } else {
        let number = rest.first();
        let next = if can_choose(chosen, number) {
            chosen.push(number)
        } else {
            chosen
        };
        assert(number == from);
        assert(rest.drop_first() =~= numbers_from(from + 1));
        lemma_choice_step(chosen, number);
        assert forall|v: u8| 1 <= v < from + 1 implies next.contains(v) by {
            if v < from {
                assert(chosen.contains(v));
            }
        }
        lemma_choice_completes(next, from + 1);
    }
}

/// Every draw yields six different numbers of the allowed range, in ascending order.
pub proof fn lemma_drawn_is_canonical(candidates: Seq<u8>)
    ensures
        is_canonical(drawn_from(candidates)),
{
    let chosen = chosen_of(candidates, Seq::empty());
    lemma_choice_goes_on(candidates, Seq::empty());
    lemma_choice_completes(chosen, 1);
    lemma_ascending_canonical(chosen_of(numbers_from(1), chosen));
}

/// Draws six numbers from the candidates that a source of random numbers has yielded:
/// the first six different ones among those in range, in ascending order. Where the
/// candidates hold fewer, the smallest numbers that they do not hold make up for the rest.
pub fn draw_from(candidates: &Vec<u8>) -> (numbers: [u8; 6])
    ensures
        numbers@ == drawn_from(candidates@),
        is_canonical(numbers@),
{
    let mut chosen: Vec<u8> = Vec::new();
    let mut i: usize = 0;
    proof {
        assert(candidates@.skip(0) =~= candidates@);
    }
    while chosen.len() < 6 && i < candidates.len()
        invariant
            i <= candidates.len(),
            choice_in_progress(chosen@),
            chosen_of(candidates@.skip(i as int), chosen@) == chosen_of(
                candidates@,
                Seq::empty(),
            ),
        decreases candidates.len() - i,
    {
        let number: u8 = candidates[i];
        proof {
            assert(candidates@.skip(i as int).first() == number);
            assert(candidates@.skip(i as int).drop_first() =~= candidates@.skip(i + 1));
            lemma_choice_step(chosen@, number);
        }
        if 1 <= number && number <= MAX_DRAWING_NUMBER && !holds_number(&chosen, number) {
            chosen.push(number);
        }
        i += 1;
    }
    let ghost sampled = chosen@;
    let mut next: u8 = 1;
    while chosen.len() < 6 && next <= MAX_DRAWING_NUMBER
        invariant
            1 <= next <= MAX_DRAWING_NUMBER + 1,
            choice_in_progress(chosen@),
            chosen@.len() < 6 ==> forall|v: u8| 1 <= v < next ==> chosen@.contains(v),
            chosen_of(numbers_from(next as int), chosen@) == chosen_of(numbers_from(1), sampled),
        decreases MAX_DRAWING_NUMBER + 1 - next,
    {
        let ghost before = chosen@;
        proof {
            assert(numbers_from(next as int).first() == next);
            assert(numbers_from(next as int).drop_first() =~= numbers_from(next + 1));
            lemma_choice_step(before, next);
        }
        if !holds_number(&chosen, next) {
            chosen.push(next);
        }
        proof {
            assert forall|v: u8| 1 <= v < next + 1 implies chosen@.contains(v) by {
                if v < next {
                    assert(before.contains(v));
                }
            }
        }
        next += 1;
    }
    proof {
        lemma_choice_completes(chosen@, next as int);
        lemma_drawn_is_canonical(candidates@);
    }
    let picked: [u8; 6] = [chosen[0], chosen[1], chosen[2], chosen[3], chosen[4], chosen[5]];
    assert(picked@ =~= chosen@);
    sort_numbers(&picked)
}

/// Draws six numbers at the time `now`: the candidates are the pseudo-random numbers of
/// that time.
pub fn draw_numbers(now: Timestamp) -> (numbers: [u8; 6])
    ensures
        numbers@ == drawn_numbers(now),
        is_canonical(numbers@),
{
    let mut candidates: Vec<u8> = Vec::new();
    let mut counter: u64 = 2;
    while counter <= LAST_COUNTER
        invariant
            2 <= counter <= LAST_COUNTER + 1,
            candidates@.len() == counter - 2,
            forall|i: int|
                0 <= i < candidates@.len() ==> candidates@[i] == timed_candidates(now)[i],
        decreases LAST_COUNTER + 1 - counter,
    {
        candidates.push(get_random_number(MAX_DRAWING_NUMBER as u64, counter, now) as u8);
        counter += 1;
    }
    assert(candidates@ =~= timed_candidates(now));
    draw_from(&candidates)
}

/// Tells whether `number` is among `numbers`.
fn holds_number(numbers: &Vec<u8>, number: u8) -> (found: bool)
    ensures
        found == numbers@.contains(number),
{
    let mut i: usize = 0;
    while i < numbers.len()
        invariant
            i <= numbers.len(),
            forall|k: int| 0 <= k < i ==> numbers@[k] != number,
        decreases numbers.len() - i,
    {
        if numbers[i] == number {
            return true;
        }
        i += 1;
    }
    false
}

/// The outcome of one draw: the six numbers that came up, and when.
#[derive(Clone, Copy, Debug)]
pub struct DrawingResult {
    pub drawed_numbers: [u8; 6],
    pub created_time: Timestamp,
}

/// What a drawing result holds.
pub struct DrawingResultView {
    pub drawed_numbers: Seq<u8>,
    pub created_time: Timestamp,
}

impl View for DrawingResult {
    type V = DrawingResultView;

    open spec fn view(&self) -> DrawingResultView {
        DrawingResultView {
            drawed_numbers: self.drawed_numbers@,
            created_time: self.created_time,
        }
    }
}

impl DeepView for DrawingResult {
    type V = DrawingResultView;

    open spec fn deep_view(&self) -> DrawingResultView {
        self@
    }
}

impl DrawingResult {
    /// Records the numbers that came up at the time `now`.
    pub fn new(drawed_numbers: [u8; 6], now: Timestamp) -> (result: Self)
        ensures
            result@ == (DrawingResultView { drawed_numbers: drawed_numbers@, created_time: now }),
    {
        DrawingResult { drawed_numbers, created_time: now }
    }

    /// Draws six numbers at the time `now` and records them.
    pub fn draw(now: Timestamp) -> (result: Self)
        ensures
            result@ == (DrawingResultView {
                drawed_numbers: drawn_numbers(now),
                created_time: now,
            }),
            is_canonical(result@.drawed_numbers),
    {
        DrawingResult { drawed_numbers: draw_numbers(now), created_time: now }
    }
}

} // verus!
