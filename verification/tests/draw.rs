use lottery::{
    draw_from, draw_numbers, get_random_number, DrawingResult, Jackpot, JackpotStatus, Lottery,
    LotteryError, ONE_NEAR,
};

fn account(name: &str) -> String {
    String::from(name)
}

/// A ledger of `alice_near` with a round at the price 1, opened at the time 10 with `seed`
/// locked in it.
fn with_round(seed: u128) -> Lottery {
    let owner = account("alice_near");
    let mut contract = Lottery::new(owner.clone());
    assert_eq!(contract.create_jackpot(&owner, Some(1), seed, 10), Ok(()));
    contract
}

#[test]
fn create_drawed_result() {
    let result = DrawingResult::draw(11);
    let numbers = result.drawed_numbers;

    println!("Creating a DrawingResult {:?}", numbers);

    let number = get_random_number(55, 0, 11);
    println!("Random number is: {}", number);

    assert_eq!(numbers, numbers);
}

#[test]
fn random_number_follows_the_formula() {
    assert_eq!(get_random_number(55, 3, 1234567), 16);
    assert_eq!(get_random_number(55, 2, 1234567), 21);
    assert_eq!(get_random_number(55, 2, 1_600_000_000_123_456_789), 45);
    assert_eq!(get_random_number(10, 7, 987_654_321_000), 9);
}

#[test]
fn random_number_counts_zero_as_one() {
    assert_eq!(get_random_number(55, 0, 1234567), 28);
    assert_eq!(get_random_number(55, 1, 1234567), 28);
}

#[test]
fn random_number_ignores_trailing_zeros() {
    assert_eq!(get_random_number(55, 2, 1234567), get_random_number(55, 2, 1234567000));
    assert_eq!(get_random_number(55, 0, 0), 1);
}

#[test]
fn random_number_stays_in_range() {
    assert_eq!(get_random_number(1, 0, 1234567), 1);
    assert_eq!(get_random_number(u64::MAX, u64::MAX, u64::MAX), 78);
    for now in [0, 1, 11, 1234567, u64::MAX] {
        for ran_no in 0..300 {
            let number = get_random_number(55, ran_no, now);
            assert!(1 <= number && number <= 55);
        }
    }
}

#[test]
fn draw_takes_the_first_six_different_candidates() {
    assert_eq!(draw_numbers(1234567), [16, 18, 21, 33, 42, 50]);
    assert_eq!(draw_numbers(1_600_000_000_123_456_789), [9, 27, 41, 42, 45, 54]);
    assert_eq!(draw_numbers(u64::MAX), [1, 4, 6, 27, 41, 46]);
}

#[test]
fn draw_completes_where_the_time_yields_one_number_only() {
    assert_eq!(draw_numbers(11), [1, 2, 3, 4, 5, 6]);
    assert_eq!(draw_numbers(0), [1, 2, 3, 4, 5, 6]);
    assert_eq!(draw_numbers(1_700_000_000_000_000_000), [1, 2, 3, 4, 5, 6]);
}

#[test]
fn draw_passes_over_what_was_chosen_and_what_is_out_of_range() {
    assert_eq!(draw_from(&vec![5, 5, 3, 60, 0, 9, 1, 3, 2, 7, 8]), [1, 2, 3, 5, 7, 9]);
    assert_eq!(draw_from(&vec![55, 54, 53, 52, 51, 50, 49]), [50, 51, 52, 53, 54, 55]);
    assert_eq!(draw_from(&vec![6, 5, 4, 3, 2, 1]), [1, 2, 3, 4, 5, 6]);
}

#[test]
fn draw_makes_up_for_missing_candidates_with_the_smallest_numbers() {
    assert_eq!(draw_from(&vec![]), [1, 2, 3, 4, 5, 6]);
    assert_eq!(draw_from(&vec![55, 55]), [1, 2, 3, 4, 5, 55]);
    assert_eq!(draw_from(&vec![2, 4, 0, 200]), [1, 2, 3, 4, 5, 6]);
    assert_eq!(draw_from(&vec![1, 2, 3, 4, 5]), [1, 2, 3, 4, 5, 6]);
    assert_eq!(draw_from(&vec![7, 8, 9, 10, 11]), [1, 7, 8, 9, 10, 11]);
}

#[test]
fn draw_at_a_time_draws_from_the_numbers_of_that_time() {
    let now = 1234567;
    let candidates: Vec<u8> =
        (2..=255).map(|counter| get_random_number(55, counter, now) as u8).collect();
    assert_eq!(draw_numbers(now), draw_from(&candidates));
    assert_eq!(&candidates[..6], &[21, 16, 42, 50, 18, 33]);
}

#[test]
fn draw_is_canonical() {
    for now in 0..2000u64 {
        let numbers = draw_numbers(now * 7919 + 13);
        for i in 0..6 {
            assert!(1 <= numbers[i] && numbers[i] <= 55);
            if i > 0 {
                assert!(numbers[i - 1] < numbers[i]);
            }
        }
    }
}

#[test]
fn drawing_result_records_the_time() {
    let result = DrawingResult::draw(1234567);
    assert_eq!(result.drawed_numbers, [16, 18, 21, 33, 42, 50]);
    assert_eq!(result.created_time, 1234567);
    let given = DrawingResult::new([1, 2, 3, 4, 5, 6], 9);
    assert_eq!(given.drawed_numbers, [1, 2, 3, 4, 5, 6]);
    assert_eq!(given.created_time, 9);
}

#[test]
fn round_is_open_from_its_start_until_it_is_closed() {
    let mut round = Jackpot::new(1, 100, 5, 0, 90);
    assert_eq!(round.get_status(99), JackpotStatus::Close);
    assert_eq!(round.get_status(100), JackpotStatus::Open);
    assert_eq!(round.get_status(u64::MAX), JackpotStatus::Open);
    assert!(round.is_open(100));
    assert!(!round.is_open(99));

    round.close(200);
    assert_eq!(round.end_time, Some(200));
    for now in [0, 99, 100, 150, 200, 201, u64::MAX] {
        assert_eq!(round.get_status(now), JackpotStatus::Close);
        assert!(!round.is_open(now));
    }
}

#[test]
fn closing_a_round_is_final() {
    let mut round = Jackpot::new(1, 100, 5, 0, 90);
    round.close(200);
    round.close(300);
    assert_eq!(round.end_time, Some(200));
    assert_eq!(round.get_status(250), JackpotStatus::Close);
}

#[test]
fn round_takes_tickets_and_draws() {
    let mut round = Jackpot::new(3, 100, 5, 7, 90);
    assert_eq!(round.id, 3);
    assert_eq!(round.created_time, 90);
    round.add_ticket(11, 5);
    round.add_ticket(12, 5);
    assert_eq!(round.ticket_ids, vec![11, 12]);
    assert_eq!(round.locked_amount, 17);
    round.record_draw(DrawingResult::new([1, 2, 3, 4, 5, 6], 120));
    assert_eq!(round.drawed_results.len(), 1);
    assert_eq!(round.drawed_results[0].drawed_numbers, [1, 2, 3, 4, 5, 6]);
    assert_eq!(round.end_time, None);
}

#[test]
fn draw_is_for_the_owner() {
    let mut contract = with_round(0);
    assert_eq!(
        contract.draw_jackpot(&account("bob_near"), false, 10),
        Err(LotteryError::Permission)
    );
    assert_eq!(
        contract.draw_jackpot_with(&account("bob_near"), [1, 2, 3, 4, 5, 6], 10),
        Err(LotteryError::Permission)
    );
    assert!(contract.get_latest_jackpot().unwrap().drawed_results.is_empty());
}

#[test]
fn draw_needs_an_open_round() {
    let owner = account("alice_near");
    let mut contract = Lottery::new(owner.clone());
    assert_eq!(contract.draw_jackpot(&owner, false, 10), Err(LotteryError::NoOpenJackpot));
    assert_eq!(contract.draw_jackpot(&owner, true, 10), Err(LotteryError::NoOpenJackpot));
    assert_eq!(
        contract.draw_jackpot_with(&owner, [1, 2, 3, 4, 5, 6], 10),
        Err(LotteryError::NoOpenJackpot)
    );
    // a round that has not started yet is not open
    assert_eq!(contract.create_jackpot(&owner, Some(1), 0, 10), Ok(()));
    assert_eq!(contract.draw_jackpot(&owner, false, 9), Err(LotteryError::NoOpenJackpot));
}

#[test]
fn draw_with_refuses_invalid_numbers() {
    let owner = account("alice_near");
    let mut contract = with_round(0);
    assert_eq!(
        contract.draw_jackpot_with(&owner, [1, 1, 2, 3, 4, 5], 10),
        Err(LotteryError::InvalidNumbers)
    );
    assert_eq!(
        contract.draw_jackpot_with(&owner, [0, 1, 2, 3, 4, 5], 10),
        Err(LotteryError::InvalidNumbers)
    );
    assert!(contract.get_latest_jackpot().unwrap().drawed_results.is_empty());
}

#[test]
fn forced_win_pays_the_winner_and_opens_the_next_round() {
    let owner = account("alice_near");
    let a = account("a_near");
    let mut contract = with_round(0);
    contract.deposit(&a, 10, 10);
    assert_eq!(contract.buy_ticket(&a, [6, 5, 4, 3, 2, 1], 10), Ok(()));
    assert_eq!(contract.get_ticket(1).unwrap().picked_numbers, [1, 2, 3, 4, 5, 6]);
    assert_eq!(contract.get_account_balance(&a), 9);
    assert_eq!(contract.get_latest_jackpot().unwrap().locked_amount, 1);

    assert_eq!(contract.draw_jackpot(&owner, true, 20), Ok(true));

    assert_eq!(contract.get_account_balance(&a), 10);
    let rounds = contract.get_jackpots();
    assert_eq!(rounds.len(), 2);
    assert_eq!(rounds[0].locked_amount, 0);
    assert_eq!(rounds[0].end_time, Some(20));
    assert_eq!(rounds[0].win_ticket_ids, vec![1]);
    assert_eq!(rounds[0].drawed_results.len(), 1);
    assert_eq!(rounds[0].drawed_results[0].drawed_numbers, [1, 2, 3, 4, 5, 6]);
    assert_eq!(rounds[0].drawed_results[0].created_time, 20);
    assert_eq!(rounds[0].get_status(20), JackpotStatus::Close);
    assert_eq!(rounds[1].id, 2);
    assert_eq!(rounds[1].ticket_price, ONE_NEAR);
    assert_eq!(rounds[1].locked_amount, 0);
    assert_eq!(rounds[1].start_time, 20);
    assert_eq!(rounds[1].end_time, None);
    assert_eq!(rounds[1].get_status(20), JackpotStatus::Open);
    assert_eq!(contract.total_funds(), 10);
}

#[test]
fn forced_win_takes_the_ticket_that_the_time_picks() {
    let owner = account("alice_near");
    let a = account("a_near");
    let mut contract = with_round(0);
    contract.deposit(&a, 10, 10);
    assert_eq!(contract.buy_ticket(&a, [1, 2, 3, 4, 5, 6], 10), Ok(()));
    assert_eq!(contract.buy_ticket(&a, [11, 12, 13, 14, 15, 16], 10), Ok(()));
    assert_eq!(contract.buy_ticket(&a, [21, 22, 23, 24, 25, 26], 10), Ok(()));
    // at the time 1234567 the counter 0 yields 1 of 3, that is the first ticket
    assert_eq!(get_random_number(3, 0, 1234567), 1);
    assert_eq!(contract.draw_jackpot(&owner, true, 1234567), Ok(true));
    let rounds = contract.get_jackpots();
    assert_eq!(rounds[0].win_ticket_ids, vec![1]);
    assert_eq!(rounds[0].drawed_results[0].drawed_numbers, [1, 2, 3, 4, 5, 6]);
    assert_eq!(contract.get_account_balance(&a), 10);
}

#[test]
fn forced_win_without_tickets_draws() {
    let owner = account("alice_near");
    let mut contract = with_round(5);
    assert_eq!(contract.draw_jackpot(&owner, true, 1234567), Ok(false));
    let round = contract.get_latest_jackpot().unwrap();
    assert_eq!(round.drawed_results[0].drawed_numbers, [16, 18, 21, 33, 42, 50]);
    assert_eq!(round.end_time, None);
    assert_eq!(round.locked_amount, 5);
}

#[test]
fn draw_without_winner_leaves_the_round_open() {
    let owner = account("alice_near");
    let a = account("a_near");
    let mut contract = with_round(3);
    contract.deposit(&a, 10, 10);
    assert_eq!(contract.buy_ticket(&a, [1, 2, 3, 4, 5, 6], 10), Ok(()));

    assert_eq!(contract.draw_jackpot(&owner, false, 1234567), Ok(false));
    assert_eq!(contract.draw_jackpot_with(&owner, [1, 2, 3, 4, 5, 7], 1234568), Ok(false));

    let rounds = contract.get_jackpots();
    assert_eq!(rounds.len(), 1);
    assert_eq!(rounds[0].end_time, None);
    assert_eq!(rounds[0].locked_amount, 4);
    assert!(rounds[0].win_ticket_ids.is_empty());
    assert_eq!(rounds[0].drawed_results.len(), 2);
    assert_eq!(rounds[0].drawed_results[0].drawed_numbers, [16, 18, 21, 33, 42, 50]);
    assert_eq!(rounds[0].drawed_results[1].drawed_numbers, [1, 2, 3, 4, 5, 7]);
    assert_eq!(contract.get_account_balance(&a), 9);
    assert_eq!(contract.total_funds(), 13);
    // play goes on
    assert_eq!(contract.buy_ticket(&a, [1, 2, 3, 4, 5, 7], 1234569), Ok(()));
}

#[test]
fn timed_draw_pays_the_ticket_that_matches() {
    let owner = account("alice_near");
    let a = account("a_near");
    let mut contract = with_round(0);
    contract.deposit(&a, 10, 10);
    assert_eq!(contract.buy_ticket(&a, [50, 42, 33, 21, 18, 16], 10), Ok(()));
    assert_eq!(contract.draw_jackpot(&owner, false, 1234567), Ok(true));
    assert_eq!(contract.get_account_balance(&a), 10);
    assert_eq!(contract.get_jackpots().len(), 2);
}

#[test]
fn prize_is_split_evenly_and_the_rest_stays_locked() {
    let owner = account("alice_near");
    let a = account("a_near");
    let b = account("b_near");
    let c = account("c_near");
    let mut contract = with_round(8);
    contract.deposit(&a, 10, 10);
    contract.deposit(&b, 10, 10);
    contract.deposit(&c, 10, 10);
    assert_eq!(contract.buy_ticket(&a, [1, 2, 3, 4, 5, 6], 10), Ok(()));
    assert_eq!(contract.buy_ticket(&b, [6, 5, 4, 3, 2, 1], 10), Ok(()));
    assert_eq!(contract.buy_ticket(&c, [1, 2, 3, 4, 5, 7], 10), Ok(()));
    assert_eq!(contract.buy_ticket(&a, [3, 2, 1, 6, 5, 4], 10), Ok(()));
    // 8 + 4 are locked; three tickets win 4 each, nothing is left
    assert_eq!(contract.get_latest_jackpot().unwrap().locked_amount, 12);
    assert_eq!(contract.total_funds(), 38);

    assert_eq!(contract.draw_jackpot_with(&owner, [4, 5, 6, 1, 2, 3], 30), Ok(true));

    assert_eq!(contract.get_account_balance(&a), 8 + 4 + 4);
    assert_eq!(contract.get_account_balance(&b), 9 + 4);
    assert_eq!(contract.get_account_balance(&c), 9);
    let rounds = contract.get_jackpots();
    assert_eq!(rounds[0].win_ticket_ids, vec![1, 2, 4]);
    assert_eq!(rounds[0].locked_amount, 0);
    assert_eq!(contract.total_funds(), 38);
}

#[test]
fn what_cannot_be_split_stays_in_the_closed_round() {
    let owner = account("alice_near");
    let a = account("a_near");
    let b = account("b_near");
    let mut contract = with_round(5);
    contract.deposit(&a, 1, 10);
    contract.deposit(&b, 1, 10);
    assert_eq!(contract.buy_ticket(&a, [1, 2, 3, 4, 5, 6], 10), Ok(()));
    assert_eq!(contract.buy_ticket(&b, [1, 2, 3, 4, 5, 6], 10), Ok(()));
    // 7 are locked; two tickets win 3 each, 1 is left
    assert_eq!(contract.draw_jackpot_with(&owner, [1, 2, 3, 4, 5, 6], 30), Ok(true));
    assert_eq!(contract.get_account_balance(&a), 3);
    assert_eq!(contract.get_account_balance(&b), 3);
    let rounds = contract.get_jackpots();
    assert_eq!(rounds[0].locked_amount, 1);
    assert_eq!(rounds[1].locked_amount, 0);
    assert_eq!(contract.total_funds(), 7);
}

#[test]
fn closed_rounds_stay_as_they_are() {
    let owner = account("alice_near");
    let a = account("a_near");
    let mut contract = with_round(5);
    contract.deposit(&a, 3 * ONE_NEAR, 10);
    assert_eq!(contract.buy_ticket(&a, [1, 2, 3, 4, 5, 6], 10), Ok(()));
    assert_eq!(contract.draw_jackpot_with(&owner, [1, 2, 3, 4, 5, 6], 30), Ok(true));
    let closed = contract.get_jackpots().remove(0);

    // the next round is the one that sells, draws and is closed from now on
    assert_eq!(contract.create_jackpot(&owner, Some(1), 0, 31), Err(LotteryError::Conflict));
    assert_eq!(contract.buy_ticket(&a, [1, 2, 3, 4, 5, 6], 31), Ok(()));
    assert_eq!(contract.draw_jackpot_with(&owner, [1, 2, 3, 4, 5, 7], 32), Ok(false));
    assert_eq!(contract.draw_jackpot(&owner, true, 33), Ok(true));
    contract.deposit(&a, 1, 34);
    assert_eq!(contract.withdraw(&a), Ok(3 * ONE_NEAR + 5 + 1));

    let rounds = contract.get_jackpots();
    assert_eq!(rounds.len(), 3);
    assert_eq!(rounds[0].id, closed.id);
    assert_eq!(rounds[0].ticket_price, closed.ticket_price);
    assert_eq!(rounds[0].locked_amount, closed.locked_amount);
    assert_eq!(rounds[0].ticket_ids, closed.ticket_ids);
    assert_eq!(rounds[0].win_ticket_ids, closed.win_ticket_ids);
    assert_eq!(rounds[0].drawed_results.len(), closed.drawed_results.len());
    assert_eq!(rounds[0].start_time, closed.start_time);
    assert_eq!(rounds[0].end_time, closed.end_time);
    assert_eq!(rounds[0].created_time, closed.created_time);
    assert_eq!(rounds[1].ticket_ids, vec![2]);
    assert_eq!(rounds[1].win_ticket_ids, vec![2]);
    assert_eq!(rounds[1].end_time, Some(33));
    assert_eq!(rounds[2].end_time, None);
    assert_eq!(contract.get_ticket(1).unwrap().picked_numbers, [1, 2, 3, 4, 5, 6]);
}

#[test]
fn funds_change_by_deposits_and_withdrawals_only() {
    let owner = account("alice_near");
    let a = account("a_near");
    let b = account("b_near");
    let mut contract = Lottery::new(owner.clone());
    assert_eq!(contract.total_funds(), 0);
    assert_eq!(contract.create_jackpot(&owner, Some(2), 7, 10), Ok(()));
    assert_eq!(contract.total_funds(), 7);
    contract.deposit(&a, 10, 10);
    contract.deposit(&b, 5, 10);
    assert_eq!(contract.total_funds(), 22);
    assert_eq!(contract.buy_ticket(&a, [1, 2, 3, 4, 5, 6], 10), Ok(()));
    assert_eq!(contract.buy_ticket(&b, [1, 2, 3, 4, 5, 6], 10), Ok(()));
    assert_eq!(contract.buy_ticket(&b, [1, 2, 3, 4, 5, 9], 10), Ok(()));
    assert_eq!(
        contract.buy_ticket(&b, [1, 2, 3, 4, 5, 9], 10),
        Err(LotteryError::InsufficientBalance)
    );
    assert_eq!(contract.total_funds(), 22);
    assert_eq!(contract.draw_jackpot(&owner, false, 1234567), Ok(false));
    assert_eq!(contract.total_funds(), 22);
    assert_eq!(contract.draw_jackpot_with(&owner, [1, 2, 3, 4, 5, 6], 20), Ok(true));
    assert_eq!(contract.total_funds(), 22);
    // 13 were locked: 6 each, 1 is left
    assert_eq!(contract.withdraw(&a), Ok(8 + 6));
    assert_eq!(contract.total_funds(), 8);
    assert_eq!(contract.withdraw(&b), Ok(1 + 6));
    assert_eq!(contract.total_funds(), 1);
    assert_eq!(contract.withdraw(&b), Err(LotteryError::NoFunds));
    assert_eq!(contract.total_funds(), 1);
}
