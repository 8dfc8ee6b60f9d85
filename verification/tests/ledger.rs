use lottery::{Lottery, LotteryError, ONE_NEAR};

const DEPOSIT_AMOUNT: u128 = 10 * ONE_NEAR;
const NOW: u64 = 11;

fn account(name: &str) -> String {
    String::from(name)
}

#[test]
fn get_default_owner_id() {
    let contract = Lottery::new(String::from("alice_near"));

    assert_eq!("alice_near".to_string(), contract.get_owner_id())
}

#[test]
fn deposit() {
    let mut contract = Lottery::new(String::from("carol_near"));

    contract.deposit(&account("bob_near"), DEPOSIT_AMOUNT, NOW);

    assert_eq!(DEPOSIT_AMOUNT, contract.get_account_balance(&String::from("bob_near")));

    assert_eq!(0, contract.get_account_balance(&String::from("carol_near")));
}

#[test]
fn withdraw() {
    let mut contract = Lottery::new(String::from("carol_near"));

    contract.deposit(&account("bob_near"), DEPOSIT_AMOUNT, NOW);

    assert_eq!(DEPOSIT_AMOUNT, contract.get_account_balance(&String::from("bob_near")));

    assert_eq!(0, contract.get_account_balance(&String::from("carol_near")));

    assert_eq!(contract.withdraw(&account("bob_near")), Ok(DEPOSIT_AMOUNT));

    assert_eq!(0, contract.get_account_balance(&String::from("bob_near")));
}

#[test]
fn create_jackpot() {
    let owner = account("bob_near");
    let mut contract = Lottery::new(String::from("bob_near"));

    assert!(contract.get_latest_jackpot().is_none());

    assert_eq!(contract.create_jackpot(&owner, None, DEPOSIT_AMOUNT, NOW), Ok(()));

    assert!(contract.get_latest_jackpot().is_some());
    assert_eq!(contract.get_jackpots().len(), 1);

    assert_eq!(
        contract.create_jackpot(&owner, None, DEPOSIT_AMOUNT, NOW),
        Err(LotteryError::Conflict)
    );
    assert_eq!(contract.get_jackpots().len(), 1);
}

#[test]
fn buy_ticket() {
    let bob = account("bob_near");
    let mut contract = Lottery::new(String::from("bob_near"));

    assert!(contract.get_latest_jackpot().is_none());

    // Create a jackpot
    println!("Create a jackpot");
    assert_eq!(contract.create_jackpot(&bob, None, DEPOSIT_AMOUNT, NOW), Ok(()));

    assert!(contract.get_latest_jackpot().is_some());

    // Deposit fund to bob_near
    println!("Deposit fund to bob_near");
    contract.deposit(&bob, DEPOSIT_AMOUNT, NOW);

    assert_eq!(DEPOSIT_AMOUNT, contract.get_account_balance(&String::from("bob_near")));

    // Buy ticket for bob_near
    println!("Buy ticket for bob_near");
    let expected = [1, 2, 3, 4, 5, 6];
    assert_eq!(contract.buy_ticket(&bob, expected, NOW), Ok(()));
    let latest_jackpot = contract.get_latest_jackpot().unwrap();
    let actual = contract.get_ticket(1).unwrap();
    assert_eq!(expected, actual.picked_numbers);

    // Check ticket id
    println!("Check ticket id");
    assert_eq!(1, latest_jackpot.ticket_ids.len());
}

#[test]
fn buy_ticket_two_accounts() {
    let account_1 = String::from("bob_near");
    let account_2 = String::from("bob_near_2");
    let deposit_amount_1 = ONE_NEAR * 10;
    let deposit_amount_2 = ONE_NEAR * 20;
    let deposit_amount_1_bought_ticket = ONE_NEAR * 7;
    let deposit_amount_2_bought_ticket = ONE_NEAR * 18;

    let mut contract = Lottery::new(String::from("bob_near"));

    assert!(contract.get_latest_jackpot().is_none());

    // Create a jackpot
    println!("Create a jackpot");
    assert_eq!(contract.create_jackpot(&account_1, None, deposit_amount_1, NOW), Ok(()));

    assert!(contract.get_latest_jackpot().is_some());

    // Deposit fund to bob_near
    println!("Deposit fund to bob_near");
    contract.deposit(&account_1, deposit_amount_1, NOW);

    // Buy ticket for bob_near
    println!("Buy ticket for bob_near");
    let account_1_ticket_1_expected = [1, 2, 3, 4, 5, 6];
    assert_eq!(contract.buy_ticket(&account_1, account_1_ticket_1_expected, NOW), Ok(()));

    let account_1_ticket_2_expected = [1, 3, 4, 5, 6, 7];
    assert_eq!(contract.buy_ticket(&account_1, account_1_ticket_2_expected, NOW), Ok(()));

    let account_1_ticket_3_expected = [1, 4, 5, 6, 7, 8];
    assert_eq!(contract.buy_ticket(&account_1, account_1_ticket_3_expected, NOW), Ok(()));

    // Deposit fund to bob_near_2
    println!("Deposit fund to bob_near_2");
    contract.deposit(&account_2, deposit_amount_2, NOW);

    // Buy ticket for bob_near_2
    println!("Buy ticket for bob_near_2");
    let account_2_ticket_1_expected = [2, 3, 4, 5, 6, 7];
    assert_eq!(contract.buy_ticket(&account_2, account_2_ticket_1_expected, NOW), Ok(()));

    let account_2_ticket_2_expected = [2, 4, 5, 6, 7, 8];
    assert_eq!(contract.buy_ticket(&account_2, account_2_ticket_2_expected, NOW), Ok(()));

    // ---------------- Test balance ----------------
    println!("Test balance of account 1");
    assert_eq!(deposit_amount_1_bought_ticket, contract.get_account_balance(&account_1));

    println!("Test balance of account 2");
    assert_eq!(deposit_amount_2_bought_ticket, contract.get_account_balance(&account_2));

    println!("Test balance of account 3 (Not existed)");
    assert_eq!(0, contract.get_account_balance(&String::from("bob_near_3")));

    // Debug account infoes
    println!("---- Account Infoes ----");
    let (_, vec, _, _) = contract.clone().into_parts();
    for i in 0..vec.len() {
        let account_info = &vec[i];
        println!(
            "Account Id: {}, Balance: {}, Tickets: {:?}",
            account_info.account_id, account_info.balance, account_info.ticket_ids
        );
        let ticket_ids = account_info.ticket_ids.to_vec();
        for j in 0..ticket_ids.len() {
            println!("--> Ticket id {}: {}", j, ticket_ids[j]);
        }
    }
    println!("---- End of Account Infoes ----");

    // ---------------- Test ticket ----------------
    let tickets = contract.get_account_tickets(&account_1);
    let account_1_ticket_1_actual = tickets.get(0).unwrap().picked_numbers;

    println!("Test ticket of account 1");
    assert_eq!(account_1_ticket_1_expected, account_1_ticket_1_actual);

    let tickets = contract.get_account_tickets(&account_2);
    let account_2_ticket_1_actual = tickets.get(0).unwrap().picked_numbers;

    println!("Test ticket of account 2");
    assert_eq!(account_2_ticket_1_expected, account_2_ticket_1_actual);
}

#[test]
fn get_random_numbers() {
    let contract = Lottery::new(String::from("bob_near"));

    assert_eq!(contract.get_number(NOW), 1);
}

#[test]
fn initialize_accepts_well_formed_owner() {
    for owner in ["aa", "alice_near", "b-o_w_e-n", "illia.cheapaccounts.near", "100"] {
        let contract = Lottery::initialize(account(owner));
        assert_eq!(contract.unwrap().get_owner_id(), owner);
    }
    let longest = "0123456789012345678901234567890123456789012345678901234567890123";
    assert!(Lottery::initialize(account(longest)).is_some());
}

#[test]
fn initialize_refuses_malformed_owner() {
    for owner in [
        "", "a", "A", "Abc", "-near", "near-", "near.", ".near", "near@", "0__0", "a..near",
        "hello world",
    ] {
        assert!(Lottery::initialize(account(owner)).is_none(), "{}", owner);
    }
    let too_long = "01234567890123456789012345678901234567890123456789012345678901234";
    assert!(Lottery::initialize(account(too_long)).is_none());
    assert!(Lottery::initialize(account("неар")).is_none());
    assert!(Lottery::initialize(account("é")).is_none());
}

#[test]
fn fresh_ledger_is_empty() {
    let contract = Lottery::new(account("alice_near"));
    assert!(contract.get_latest_jackpot().is_none());
    assert!(contract.get_jackpots().is_empty());
    assert!(contract.get_ticket(1).is_none());
    assert_eq!(contract.no_of_tickets(), 0);
    assert_eq!(contract.no_of_jackpots(), 0);
    assert_eq!(contract.total_funds(), 0);
}

#[test]
fn set_owner_id_is_for_the_owner() {
    let mut contract = Lottery::new(account("alice_near"));
    assert_eq!(
        contract.set_owner_id(&account("bob_near"), account("bob_near")),
        Err(LotteryError::Permission)
    );
    assert_eq!(contract.get_owner_id(), "alice_near");
    assert_eq!(contract.set_owner_id(&account("alice_near"), account("bob_near")), Ok(()));
    assert_eq!(contract.get_owner_id(), "bob_near");
    assert_eq!(
        contract.create_jackpot(&account("alice_near"), None, 0, NOW),
        Err(LotteryError::Permission)
    );
    assert_eq!(contract.create_jackpot(&account("bob_near"), None, 0, NOW), Ok(()));
}

#[test]
fn account_is_created_by_its_first_deposit() {
    let mut contract = Lottery::new(account("alice_near"));
    let bob = account("bob_near");
    let before = contract.get_account_info_or_default(&bob, 5);
    assert_eq!(before.account_id, "bob_near");
    assert_eq!(before.balance, 0);
    assert!(before.ticket_ids.is_empty());
    assert_eq!(before.created_time, 5);

    contract.deposit(&bob, 3, 7);
    contract.deposit(&bob, 4, 9);
    let after = contract.get_account_info_or_default(&bob, 11);
    assert_eq!(after.balance, 7);
    assert_eq!(after.created_time, 7);
    assert_eq!(contract.total_funds(), 7);
}

#[test]
fn withdraw_without_funds_changes_nothing() {
    let mut contract = Lottery::new(account("alice_near"));
    let bob = account("bob_near");
    assert_eq!(contract.withdraw(&bob), Err(LotteryError::NoFunds));
    assert_eq!(contract.get_account_balance(&bob), 0);

    contract.deposit(&bob, 10, NOW);
    assert_eq!(contract.withdraw(&bob), Ok(10));
    assert_eq!(contract.withdraw(&bob), Err(LotteryError::NoFunds));
    assert_eq!(contract.get_account_balance(&bob), 0);
    assert_eq!(contract.total_funds(), 0);
}

#[test]
fn create_jackpot_is_for_the_owner() {
    let mut contract = Lottery::new(account("alice_near"));
    assert_eq!(
        contract.create_jackpot(&account("bob_near"), Some(1), 0, NOW),
        Err(LotteryError::Permission)
    );
    assert!(contract.get_latest_jackpot().is_none());
}

#[test]
fn create_jackpot_sets_up_the_round() {
    let owner = account("alice_near");
    let mut contract = Lottery::new(owner.clone());
    assert_eq!(contract.create_jackpot(&owner, Some(5), 100, 42), Ok(()));
    let round = contract.get_latest_jackpot().unwrap();
    assert_eq!(round.id, 1);
    assert_eq!(round.ticket_price, 5);
    assert_eq!(round.locked_amount, 100);
    assert_eq!(round.start_time, 42);
    assert_eq!(round.created_time, 42);
    assert_eq!(round.end_time, None);
    assert!(round.ticket_ids.is_empty());
    assert!(round.win_ticket_ids.is_empty());
    assert!(round.drawed_results.is_empty());
    assert_eq!(contract.total_funds(), 100);
}

#[test]
fn create_jackpot_defaults_to_one_token() {
    let owner = account("alice_near");
    let mut contract = Lottery::new(owner.clone());
    assert_eq!(contract.create_jackpot(&owner, None, 0, NOW), Ok(()));
    assert_eq!(contract.get_latest_jackpot().unwrap().ticket_price, ONE_NEAR);
    assert_eq!(ONE_NEAR, 1_000_000_000_000_000_000_000_000);
}

#[test]
fn second_round_conflicts_at_any_later_time() {
    let owner = account("alice_near");
    let mut contract = Lottery::new(owner.clone());
    assert_eq!(contract.create_jackpot(&owner, Some(1), 0, 10), Ok(()));
    for later in [10, 11, 1_000, u64::MAX] {
        assert_eq!(contract.create_jackpot(&owner, Some(1), 0, later), Err(LotteryError::Conflict));
    }
    assert_eq!(contract.get_jackpots().len(), 1);
}

#[test]
fn buy_ticket_needs_an_open_round() {
    let owner = account("alice_near");
    let bob = account("bob_near");
    let mut contract = Lottery::new(owner.clone());
    contract.deposit(&bob, 10, NOW);
    assert_eq!(
        contract.buy_ticket(&bob, [1, 2, 3, 4, 5, 6], NOW),
        Err(LotteryError::NoOpenJackpot)
    );

    // a round that has not started yet is not open
    assert_eq!(contract.create_jackpot(&owner, Some(1), 0, 100), Ok(()));
    assert_eq!(contract.buy_ticket(&bob, [1, 2, 3, 4, 5, 6], 99), Err(LotteryError::NoOpenJackpot));
    assert_eq!(contract.buy_ticket(&bob, [1, 2, 3, 4, 5, 6], 100), Ok(()));
}

#[test]
fn buy_ticket_needs_the_price() {
    let owner = account("alice_near");
    let bob = account("bob_near");
    let mut contract = Lottery::new(owner.clone());
    assert_eq!(contract.create_jackpot(&owner, Some(5), 0, NOW), Ok(()));
    assert_eq!(
        contract.buy_ticket(&bob, [1, 2, 3, 4, 5, 6], NOW),
        Err(LotteryError::InsufficientBalance)
    );
    contract.deposit(&bob, 4, NOW);
    assert_eq!(
        contract.buy_ticket(&bob, [1, 2, 3, 4, 5, 6], NOW),
        Err(LotteryError::InsufficientBalance)
    );
    // the balance is looked at before the numbers are
    assert_eq!(
        contract.buy_ticket(&bob, [1, 1, 1, 1, 1, 1], NOW),
        Err(LotteryError::InsufficientBalance)
    );
    contract.deposit(&bob, 1, NOW);
    assert_eq!(contract.buy_ticket(&bob, [1, 2, 3, 4, 5, 6], NOW), Ok(()));
    assert_eq!(contract.get_account_balance(&bob), 0);
}

#[test]
fn buy_ticket_refuses_duplicate_numbers() {
    let owner = account("alice_near");
    let mut contract = Lottery::new(owner.clone());
    assert_eq!(contract.create_jackpot(&owner, Some(1), 0, NOW), Ok(()));
    contract.deposit(&owner, 10, NOW);
    assert_eq!(
        contract.buy_ticket(&owner, [1, 1, 2, 3, 4, 5], NOW),
        Err(LotteryError::InvalidNumbers)
    );
    assert_eq!(contract.get_account_balance(&owner), 10);
    assert!(contract.get_ticket(1).is_none());
    assert_eq!(contract.get_latest_jackpot().unwrap().locked_amount, 0);
}

#[test]
fn buy_ticket_refuses_numbers_out_of_range() {
    let owner = account("alice_near");
    let mut contract = Lottery::new(owner.clone());
    assert_eq!(contract.create_jackpot(&owner, Some(1), 0, NOW), Ok(()));
    contract.deposit(&owner, 10, NOW);
    assert_eq!(
        contract.buy_ticket(&owner, [0, 1, 2, 3, 4, 5], NOW),
        Err(LotteryError::InvalidNumbers)
    );
    assert_eq!(
        contract.buy_ticket(&owner, [1, 2, 3, 4, 5, 56], NOW),
        Err(LotteryError::InvalidNumbers)
    );
    assert_eq!(contract.get_account_balance(&owner), 10);
    assert!(contract.get_account_tickets(&owner).is_empty());
    assert_eq!(contract.buy_ticket(&owner, [55, 1, 2, 3, 4, 5], NOW), Ok(()));
}

#[test]
fn buy_ticket_stores_the_numbers_in_ascending_order() {
    let owner = account("alice_near");
    let bob = account("bob_near");
    let mut contract = Lottery::new(owner.clone());
    assert_eq!(contract.create_jackpot(&owner, Some(2), 1, NOW), Ok(()));
    contract.deposit(&bob, 10, NOW);
    assert_eq!(contract.buy_ticket(&bob, [40, 7, 55, 1, 23, 8], 12), Ok(()));
    let ticket = contract.get_ticket(1).unwrap();
    assert_eq!(ticket.id, 1);
    assert_eq!(ticket.account_id, "bob_near");
    assert_eq!(ticket.picked_numbers, [1, 7, 8, 23, 40, 55]);
    assert_eq!(ticket.created_time, 12);
    assert_eq!(contract.get_account_balance(&bob), 8);
    let round = contract.get_latest_jackpot().unwrap();
    assert_eq!(round.locked_amount, 3);
    assert_eq!(round.ticket_ids, vec![1]);
    assert_eq!(contract.get_account_info_or_default(&bob, 0).ticket_ids, vec![1]);
    assert_eq!(contract.total_funds(), 11);
}

#[test]
fn ticket_ids_count_up_across_accounts() {
    let owner = account("alice_near");
    let bob = account("bob_near");
    let mut contract = Lottery::new(owner.clone());
    assert_eq!(contract.create_jackpot(&owner, Some(1), 0, NOW), Ok(()));
    contract.deposit(&owner, 10, NOW);
    contract.deposit(&bob, 10, NOW);
    assert_eq!(contract.buy_ticket(&owner, [1, 2, 3, 4, 5, 6], NOW), Ok(()));
    assert_eq!(contract.buy_ticket(&bob, [1, 2, 3, 4, 5, 7], NOW), Ok(()));
    assert_eq!(contract.buy_ticket(&owner, [1, 2, 3, 4, 5, 8], NOW), Ok(()));
    assert_eq!(contract.get_account_info_or_default(&owner, 0).ticket_ids, vec![1, 3]);
    assert_eq!(contract.get_account_info_or_default(&bob, 0).ticket_ids, vec![2]);
    assert_eq!(contract.get_latest_jackpot().unwrap().ticket_ids, vec![1, 2, 3]);
    assert_eq!(contract.get_ticket(3).unwrap().picked_numbers, [1, 2, 3, 4, 5, 8]);
    assert!(contract.get_ticket(0).is_none());
    assert!(contract.get_ticket(4).is_none());
    assert_eq!(contract.no_of_tickets(), 3);
    assert_eq!(contract.no_of_jackpots(), 1);
    let tickets = contract.get_account_tickets(&owner);
    assert_eq!(tickets.len(), 2);
    assert_eq!(tickets[1].id, 3);
}

/// All the orders in which `numbers` can come.
fn orders_of(numbers: Vec<u8>) -> Vec<Vec<u8>> {
    if numbers.len() <= 1 {
        return vec![numbers];
    }
    let mut orders = Vec::new();
    for i in 0..numbers.len() {
        let mut rest = numbers.clone();
        let first = rest.remove(i);
        for mut order in orders_of(rest) {
            order.insert(0, first);
            orders.push(order);
        }
    }
    orders
}

#[test]
fn numbers_in_any_order_buy_the_same_ticket() {
    let owner = account("alice_near");
    let bob = account("bob_near");
    let mut contract = Lottery::new(owner.clone());
    assert_eq!(contract.create_jackpot(&owner, Some(1), 0, NOW), Ok(()));
    contract.deposit(&bob, 720, NOW);
    let orders = orders_of(vec![3, 55, 1, 20, 54, 7]);
    assert_eq!(orders.len(), 720);
    for (sold, order) in orders.iter().enumerate() {
        let picked = [order[0], order[1], order[2], order[3], order[4], order[5]];
        assert_eq!(contract.buy_ticket(&bob, picked, NOW), Ok(()));
        let ticket = contract.get_ticket(sold as u64 + 1).unwrap();
        assert_eq!(ticket.picked_numbers, [1, 3, 7, 20, 54, 55]);
    }
    assert_eq!(contract.get_account_balance(&bob), 0);
    assert_eq!(contract.get_latest_jackpot().unwrap().locked_amount, 720);
    assert_eq!(
        contract.buy_ticket(&bob, [1, 3, 7, 20, 54, 55], NOW),
        Err(LotteryError::InsufficientBalance)
    );
}

#[test]
fn copy_of_a_ledger_goes_its_own_way() {
    let owner = account("alice_near");
    let mut contract = Lottery::new(owner.clone());
    contract.deposit(&owner, 5, NOW);
    let mut copy = contract.clone();
    copy.deposit(&owner, 1, NOW);
    assert_eq!(contract.get_account_balance(&owner), 5);
    assert_eq!(copy.get_account_balance(&owner), 6);
}
