use crate::account::{
    account_index, account_or_default, balance_of, balances, distinct_ids, find_account,
    has_account, is_account_id, is_valid_account_id, lemma_account_index, AccountInfo,
};
use crate::funds::{lemma_sum_bounds, lemma_sum_take, lemma_sum_update, sum};
use crate::jackpot::{locked_amounts, Jackpot, JackpotView};
use crate::audit::{is_in_order, ledger_of};
use crate::draw::{draw_numbers, DrawingResult, DrawingResultView};
use crate::laws::{
    lemma_account_tickets, lemma_buy_ticket, lemma_create_jackpot, lemma_deposit, lemma_draw,
    lemma_pay_no_prize, lemma_pay_one_more, lemma_pay_prizes, lemma_round_tickets,
    lemma_withdraw,
};
use crate::model::{
    pay_prizes, price_or_default, round_in_order, ticket_in_order, wins, LotteryView,
};
use crate::numbers::{
    ascending, compare_numbers, is_canonical, is_valid_pick, validate_numbers,
};
use crate::random::{get_random_number, random_number};
use crate::ticket::Ticket;
use crate::types::{
    AccountId, Balance, JackpotId, LotteryError, TicketId, Timestamp, MAX_DRAWING_NUMBER,
    ONE_NEAR,
};
use vstd::prelude::*;

verus! {

/// The ledger of the lottery: the accounts with their balances, every ticket sold, and
/// the rounds from the first to the latest.
#[derive(Debug)]
pub struct Lottery {
    owner_id: AccountId,
    account_infoes: Vec<AccountInfo>,
    jackpots: Vec<Jackpot>,
    tickets: Vec<Ticket>,
}

impl View for Lottery {
    type V = LotteryView;

    closed spec fn view(&self) -> LotteryView {
        LotteryView {
            owner_id: self.owner_id@,
            accounts: self.account_infoes.deep_view(),
            jackpots: self.jackpots.deep_view(),
            tickets: self.tickets.deep_view(),
        }
    }
}

impl Clone for Lottery {
    fn clone(&self) -> (copy: Self)
        ensures
            copy@ == self@,
    {
        let copy = Lottery {
            owner_id: self.owner_id.clone(),
            account_infoes: self.account_infoes.clone(),
            jackpots: self.jackpots.clone(),
            tickets: self.tickets.clone(),
        };
        assert(copy@.accounts =~= self@.accounts);
        assert(copy@.jackpots =~= self@.jackpots);
        assert(copy@.tickets =~= self@.tickets);
        copy
    }
}

impl Lottery {
    /// The invariant of the ledger. Every operation keeps it.
    pub open spec fn wf(&self) -> bool {
        self@.wf()
    }

    /// Makes the ledger of the owner `owner_id`, with no account, no ticket and no round,
    /// if `owner_id` is a well-formed account id.
    pub fn initialize(owner_id: AccountId) -> (lottery: Option<Self>)
        ensures
            lottery is Some <==> is_account_id(owner_id@),
            lottery matches Some(made) ==> made.wf() && made@ == LotteryView::fresh(owner_id@),
    {
        if is_valid_account_id(&owner_id) {
            Some(Lottery::new(owner_id))
        } else {
            None
        }
    }

    /// Makes the ledger of the owner `owner_id`, with no account, no ticket and no round.
    pub fn new(owner_id: AccountId) -> (lottery: Self)
        requires
            is_account_id(owner_id@),
        ensures
            lottery.wf(),
            lottery@ == LotteryView::fresh(owner_id@),
    {
        let lottery = Lottery {
            owner_id,
            account_infoes: Vec::new(),
            jackpots: Vec::new(),
            tickets: Vec::new(),
        };
        proof {
            assert(lottery@.accounts =~= Seq::empty());
            assert(lottery@.jackpots =~= Seq::empty());
            assert(lottery@.tickets =~= Seq::empty());
            assert(balances(lottery@.accounts) =~= Seq::empty());
            assert(locked_amounts(lottery@.jackpots) =~= Seq::empty());
        }
        lottery
    }

    /// Puts a ledger together from what one was taken apart into, if the parts make up a
    /// ledger that is in order.
    pub fn from_parts(
        owner_id: AccountId,
        account_infoes: Vec<AccountInfo>,
        jackpots: Vec<Jackpot>,
        tickets: Vec<Ticket>,
    ) -> (lottery: Option<Self>)
        ensures
            lottery is Some <==> ledger_of(owner_id@, &account_infoes, &jackpots, &tickets).wf(),
            lottery matches Some(made) ==> made.wf() && made@ == ledger_of(
                owner_id@,
                &account_infoes,
                &jackpots,
                &tickets,
            ),
    {
        if is_in_order(&account_infoes, &jackpots, &tickets) {
            Some(Lottery { owner_id, account_infoes, jackpots, tickets })
        } else {
            None
        }
    }

    /// Takes the ledger apart into its owner, its accounts, its rounds and its tickets.
    pub fn into_parts(self) -> (parts: (AccountId, Vec<AccountInfo>, Vec<Jackpot>, Vec<Ticket>))
        ensures
            ledger_of(parts.0@, &parts.1, &parts.2, &parts.3) == self@,
    {
        (self.owner_id, self.account_infoes, self.jackpots, self.tickets)
    }

    /// The owner of the ledger.
    pub fn get_owner_id(&self) -> (owner_id: AccountId)
        ensures
            owner_id@ == self@.owner_id,
    {
        self.owner_id.clone()
    }

    /// Hands the ledger over to the owner `owner_id`. Only the owner may.
    pub fn set_owner_id(&mut self, caller: &AccountId, owner_id: AccountId) -> (outcome: Result<
        (),
        LotteryError,
    >)
        requires
            old(self).wf(),
        ensures
            final(self).wf(),
            outcome is Ok <==> caller@ == old(self)@.owner_id,
            outcome matches Err(e) ==> e == LotteryError::Permission && final(self)@ == old(
                self,
            )@,
            outcome is Ok ==> final(self)@ == (LotteryView { owner_id: owner_id@, ..old(self)@ }),
            final(self)@.extends(old(self)@),
            final(self)@.total_funds() == old(self)@.total_funds(),
    {
        if *caller != self.owner_id {
            return Err(LotteryError::Permission);
        }
        self.owner_id = owner_id;
        Ok(())
    }

    /// The account `account_id` as the ledger keeps it, or what it would be if it were
    /// created at the time `now`.
    pub fn get_account_info_or_default(
        &self,
        account_id: &AccountId,
        now: Timestamp,
    ) -> (account: AccountInfo)
        requires
            self.wf(),
        ensures
            account@ == account_or_default(self@.accounts, account_id@, now),
    {
        match find_account(&self.account_infoes, account_id) {
            None => AccountInfo::new(account_id.clone(), now),
            Some(i) => {
                proof {
                    self.lemma_found(i as int);
                }
                self.account_infoes[i].clone()
            },
        }
    }

    /// The balance of the account `account_id`; 0 where there is no such account.
    pub fn get_account_balance(&self, account_id: &AccountId) -> (balance: Balance)
        requires
            self.wf(),
        ensures
            balance == balance_of(self@.accounts, account_id@),
    {
        match find_account(&self.account_infoes, account_id) {
            None => 0,
            Some(i) => {
                proof {
                    self.lemma_found(i as int);
                }
                self.account_infoes[i].balance
            },
        }
    }

    /// All the funds that the ledger holds: the balances of the accounts and the amounts
    /// locked in the rounds.
    pub fn total_funds(&self) -> (total: Balance)
        requires
            self.wf(),
        ensures
            total == self@.total_funds(),
    {
        let ghost all_balances = balances(self@.accounts);
        let ghost all_locked = locked_amounts(self@.jackpots);
        let mut total: u128 = 0;
        let mut i: usize = 0;
        proof {
            assert(all_balances.take(0) =~= Seq::empty());
        }
        while i < self.account_infoes.len()
            invariant
                i <= self.account_infoes.len(),
                all_balances == balances(self@.accounts),
                all_balances.len() == self.account_infoes.len(),
                total == sum(all_balances.take(i as int)),
                sum(all_balances) <= u128::MAX,
            decreases self.account_infoes.len() - i,
        {
            proof {
                lemma_sum_take(all_balances, i as int);
                lemma_sum_take(all_balances, i + 1);
                assert(all_balances[i as int] == self.account_infoes[i as int].balance);
            }
            total = total + self.account_infoes[i].balance;
            i += 1;
        }
        proof {
            lemma_sum_take(all_balances, i as int);
            assert(all_locked.take(0) =~= Seq::empty());
        }
        let mut j: usize = 0;
        while j < self.jackpots.len()
            invariant
                j <= self.jackpots.len(),
                all_locked == locked_amounts(self@.jackpots),
                all_locked.len() == self.jackpots.len(),
                total == sum(all_balances) + sum(all_locked.take(j as int)),
                sum(all_balances) + sum(all_locked) <= u128::MAX,
            decreases self.jackpots.len() - j,
        {
            proof {
                lemma_sum_take(all_locked, j as int);
                lemma_sum_take(all_locked, j + 1);
                assert(all_locked[j as int] == self.jackpots[j as int].locked_amount);
            }
            total = total + self.jackpots[j].locked_amount;
            j += 1;
        }
        proof {
            lemma_sum_take(all_locked, j as int);
        }
        total
    }

    /// Adds `amount` to the balance of the account `caller`, which is created at the time
    /// `now` if it did not exist.
    pub fn deposit(&mut self, caller: &AccountId, amount: Balance, now: Timestamp)
        requires
            old(self).wf(),
            old(self)@.total_funds() + amount <= u128::MAX,
        ensures
            final(self).wf(),
            final(self)@ == old(self)@.after_deposit(caller@, amount as nat, now),
            final(self)@.extends(old(self)@),
            final(self)@.total_funds() == old(self)@.total_funds() + amount,
            balance_of(final(self)@.accounts, caller@) == balance_of(old(self)@.accounts, caller@)
                + amount,
    {
        proof {
            lemma_deposit(self@, caller@, amount as nat, now);
        }
        match find_account(&self.account_infoes, caller) {
            Some(i) => {
                proof {
                    self.lemma_found(i as int);
                    lemma_sum_bounds(balances(self@.accounts), i as int);
                }
                self.account_infoes[i].balance = self.account_infoes[i].balance + amount;
                assert(self@.accounts =~= old(self)@.after_deposit(
                    caller@,
                    amount as nat,
                    now,
                ).accounts);
            },
            None => {
                let mut account = AccountInfo::new(caller.clone(), now);
                account.balance = amount;
                self.account_infoes.push(account);
                assert(self@.accounts =~= old(self)@.after_deposit(
                    caller@,
                    amount as nat,
                    now,
                ).accounts);
            },
        }
    }

    /// Takes all the funds out of the account `caller` and returns the amount, for the
    /// caller to pay it out. An account without funds has nothing to withdraw.
    pub fn withdraw(&mut self, caller: &AccountId) -> (outcome: Result<Balance, LotteryError>)
        requires
            old(self).wf(),
        ensures
            final(self).wf(),
            outcome is Ok <==> balance_of(old(self)@.accounts, caller@) > 0,
            outcome matches Ok(amount) ==> {
                &&& amount == balance_of(old(self)@.accounts, caller@)
                &&& final(self)@ == old(self)@.after_withdraw(caller@)
                &&& final(self)@.total_funds() + amount == old(self)@.total_funds()
                &&& balance_of(final(self)@.accounts, caller@) == 0
            },
            outcome matches Err(e) ==> e == LotteryError::NoFunds && final(self)@ == old(self)@,
            final(self)@.extends(old(self)@),
    {
        match find_account(&self.account_infoes, caller) {
            None => Err(LotteryError::NoFunds),
            Some(i) => {
                proof {
                    self.lemma_found(i as int);
                }
                let proceeds: u128 = self.account_infoes[i].balance;
                if proceeds == 0 {
                    return Err(LotteryError::NoFunds);
                }
                proof {
                    lemma_withdraw(self@, caller@);
                }
                self.account_infoes[i].balance = 0;
                assert(self@.accounts =~= old(self)@.after_withdraw(caller@).accounts);
                Ok(proceeds)
            },
        }
    }

    /// The round that was created last, if any.
    pub fn get_latest_jackpot(&self) -> (latest: Option<Jackpot>)
        ensures
            latest is Some <==> self@.latest() is Some,
            latest matches Some(round) ==> self@.latest() == Some(round@),
    {
        if self.jackpots.len() == 0 {
            None
        } else {
            let last_index = self.jackpots.len() - 1;
            Some(self.jackpots[last_index].clone())
        }
    }

    /// All the rounds, from the first to the latest.
    pub fn get_jackpots(&self) -> (rounds: Vec<Jackpot>)
        ensures
            rounds.deep_view() == self@.jackpots,
    {
        let rounds = self.jackpots.clone();
        assert(rounds.deep_view() =~= self@.jackpots);
        rounds
    }

    /// How many rounds there have been, the latest one included.
    pub fn no_of_jackpots(&self) -> (count: usize)
        ensures
            count == self@.jackpots.len(),
    {
        self.jackpots.len()
    }

    /// How many tickets have been sold.
    pub fn no_of_tickets(&self) -> (count: usize)
        ensures
            count == self@.tickets.len(),
    {
        self.tickets.len()
    }

    /// The ticket `ticket_id`, if there is one.
    pub fn get_ticket(&self, ticket_id: TicketId) -> (ticket: Option<Ticket>)
        ensures
            ticket is Some <==> 1 <= ticket_id <= self@.tickets.len(),
            ticket matches Some(t) ==> t@ == self@.tickets[ticket_id - 1],
    {
        if ticket_id == 0 || ticket_id > self.tickets.len() as u64 {
            None
        } else {
            Some(self.tickets[(ticket_id - 1) as usize].clone())
        }
    }

    /// The tickets of the account `account_id`, in the order in which it bought them.
    pub fn get_account_tickets(&self, account_id: &AccountId) -> (tickets: Vec<Ticket>)
        requires
            self.wf(),
        ensures
            tickets.deep_view() == self@.tickets_of(account_id@),
    {
        let mut tickets: Vec<Ticket> = Vec::new();
        match find_account(&self.account_infoes, account_id) {
            None => {
                assert(tickets.deep_view() =~= self@.tickets_of(account_id@));
            },
            Some(at) => {
                let ghost ids = self.account_infoes[at as int].ticket_ids@;
                proof {
                    self.lemma_found(at as int);
                    assert forall|k: int| 0 <= k < ids.len() implies 1 <= #[trigger] ids[k]
                        <= self.tickets.len() by {
                        lemma_account_tickets(self@, at as int, k);
                    }
                }
                let mut i: usize = 0;
                while i < self.account_infoes[at].ticket_ids.len()
                    invariant
                        at < self.account_infoes.len(),
                        ids == self.account_infoes[at as int].ticket_ids@,
                        i <= ids.len(),
                        forall|k: int|
                            0 <= k < ids.len() ==> 1 <= #[trigger] ids[k] <= self.tickets.len(),
                        tickets.len() == i,
                        forall|k: int|
                            0 <= k < i ==> (#[trigger] tickets[k])@ == self.tickets[ids[k] - 1]@,
                    decreases ids.len() - i,
                {
                    let ticket_id: u64 = self.account_infoes[at].ticket_ids[i];
                    tickets.push(self.tickets[(ticket_id - 1) as usize].clone());
                    i += 1;
                }
                assert(tickets.deep_view() =~= self@.tickets_of(account_id@));
            },
        }
        tickets
    }

    /// A pseudo-random number between 1 and `MAX_DRAWING_NUMBER` for the time `now`.
    pub fn get_number(&self, now: Timestamp) -> (number: u8)
        ensures
            number == random_number(MAX_DRAWING_NUMBER as int, 0, now as int),
            1 <= number <= MAX_DRAWING_NUMBER,
    {
        get_random_number(MAX_DRAWING_NUMBER as u64, 0, now) as u8
    }

    /// The id of the ticket that is sold next.
    fn generate_ticket_id(&self) -> (id: TicketId)
        requires
            self.tickets.len() < u64::MAX,
        ensures
            id == self@.tickets.len() + 1,
    {
        self.tickets.len() as u64 + 1
    }

    /// The id of the round that is created next.
    fn generate_jackpot_id(&self) -> (id: JackpotId)
        requires
            self.jackpots.len() < u32::MAX,
        ensures
            id == self@.jackpots.len() + 1,
    {
        self.jackpots.len() as u32 + 1
    }

    /// Creates a round that starts at the time `now`, with the amount
    /// `initialized_amount` locked in it, at the price `ticket_price` for a ticket, or one
    /// whole token where none is named. Only the owner may, and only while no round is
    /// open.
    pub fn create_jackpot(
        &mut self,
        caller: &AccountId,
        ticket_price: Option<u128>,
        initialized_amount: Balance,
        now: Timestamp,
    ) -> (outcome: Result<(), LotteryError>)
        requires
            old(self).wf(),
            old(self)@.jackpots.len() < u32::MAX,
            old(self)@.total_funds() + initialized_amount <= u128::MAX,
            price_or_default(ticket_price) > 0,
            old(self)@.latest() matches Some(round) ==> round.start_time <= now,
        ensures
            final(self).wf(),
            outcome == old(self)@.create_jackpot_outcome(caller@, now),
            outcome is Ok ==> final(self)@ == old(self)@.after_create_jackpot(
                ticket_price,
                initialized_amount as nat,
                now,
            ),
            outcome is Ok ==> final(self)@.total_funds() == old(self)@.total_funds()
                + initialized_amount,
            outcome is Err ==> final(self)@ == old(self)@,
            final(self)@.extends(old(self)@),
    {
        if *caller != self.owner_id {
            return Err(LotteryError::Permission);
        }
        let rounds = self.jackpots.len();
        if rounds > 0 && self.jackpots[rounds - 1].is_open(now) {
            return Err(LotteryError::Conflict);
        }
        proof {
            lemma_create_jackpot(self@, ticket_price, initialized_amount as nat, now);
        }
        self.open_next_round(ticket_price, initialized_amount, now);
        Ok(())
    }

    /// Adds the next round to the rounds.
    fn open_next_round(
        &mut self,
        ticket_price: Option<u128>,
        initialized_amount: Balance,
        now: Timestamp,
    )
        requires
            old(self).jackpots.len() < u32::MAX,
        ensures
            final(self)@ == old(self)@.after_create_jackpot(
                ticket_price,
                initialized_amount as nat,
                now,
            ),
    {
        let price: u128 = match ticket_price {
            Some(price) => price,
            None => ONE_NEAR,
        };
        let id = self.generate_jackpot_id();
        let round = Jackpot::new(id, now, price, initialized_amount, now);
        self.jackpots.push(round);
        assert(self@.jackpots =~= old(self)@.after_create_jackpot(
            ticket_price,
            initialized_amount as nat,
            now,
        ).jackpots);
    }

    /// Sells the account `caller` a ticket of the open round on the numbers
    /// `picked_numbers`, which may come in any order and are kept in ascending order. The
    /// price of the ticket moves from the balance of the account into the round.
    pub fn buy_ticket(
        &mut self,
        caller: &AccountId,
        picked_numbers: [u8; 6],
        now: Timestamp,
    ) -> (outcome: Result<(), LotteryError>)
        requires
            old(self).wf(),
            old(self)@.tickets.len() < u64::MAX,
        ensures
            final(self).wf(),
            outcome == old(self)@.buy_ticket_outcome(caller@, picked_numbers@, now),
            outcome is Ok ==> final(self)@ == old(self)@.after_buy_ticket(
                caller@,
                picked_numbers@,
                now,
            ),
            outcome is Ok ==> final(self)@.tickets.last().picked_numbers == ascending(
                picked_numbers@,
            ),
            outcome is Err ==> final(self)@ == old(self)@,
            final(self)@.extends(old(self)@),
            final(self)@.total_funds() == old(self)@.total_funds(),
    {
        let rounds = self.jackpots.len();
        if rounds == 0 || !self.jackpots[rounds - 1].is_open(now) {
            return Err(LotteryError::NoOpenJackpot);
        }
        let last = rounds - 1;
        let ticket_price: u128 = self.jackpots[last].ticket_price;
        assert(ticket_price == self@.jackpots.last().ticket_price);
        let found = find_account(&self.account_infoes, caller);
        if found.is_none() {
            assert(round_in_order(self@.jackpots[last as int], last as int, rounds as nat));
            return Err(LotteryError::InsufficientBalance);
        }
        let at: usize = found.unwrap();
        proof {
            self.lemma_found(at as int);
        }
        if self.account_infoes[at].balance < ticket_price {
            return Err(LotteryError::InsufficientBalance);
        }
        let sorted = match validate_numbers(&picked_numbers) {
            Ok(sorted) => sorted,
            Err(e) => {
                return Err(e);
            },
        };
        proof {
            lemma_buy_ticket(self@, caller@, picked_numbers@, now);
            lemma_sum_bounds(balances(self@.accounts), at as int);
            lemma_sum_bounds(locked_amounts(self@.jackpots), last as int);
            lemma_sum_update(
                balances(self@.accounts),
                at as int,
                (self@.accounts[at as int].balance - ticket_price) as nat,
            );
        }
        let ticket_id = self.generate_ticket_id();
        self.tickets.push(Ticket::new(&ticket_id, caller, &sorted, now));
        self.jackpots[last].add_ticket(ticket_id, ticket_price);
        self.account_infoes[at].balance = self.account_infoes[at].balance - ticket_price;
        self.account_infoes[at].ticket_ids.push(ticket_id);
        proof {
            let after = old(self)@.after_buy_ticket(caller@, picked_numbers@, now);
            assert(self@.tickets =~= after.tickets);
            assert(self@.jackpots =~= after.jackpots);
            assert(self@.accounts =~= after.accounts);
        }
        Ok(())
    }

    /// Draws in the open round at the time `now`, and settles the round if a ticket wins.
    /// The numbers are drawn from the time; where a win is forced and the round has
    /// tickets, the numbers of one of them, picked by the time, are taken in their place.
    /// Returns whether the round was closed. Only the owner may draw.
    pub fn draw_jackpot(
        &mut self,
        caller: &AccountId,
        force_win: bool,
        now: Timestamp,
    ) -> (outcome: Result<bool, LotteryError>)
        requires
            old(self).wf(),
            old(self)@.jackpots.len() < u32::MAX,
        ensures
            final(self).wf(),
            outcome is Ok <==> old(self)@.draw_jackpot_refusal(caller@, now) is None,
            outcome matches Err(e) ==> old(self)@.draw_jackpot_refusal(caller@, now) == Some(e)
                && final(self)@ == old(self)@,
            outcome matches Ok(closed) ==> {
                let drawn = old(self)@.numbers_to_draw(force_win, now);
                &&& final(self)@ == old(self)@.after_draw(drawn, now)
                &&& closed == (old(self)@.winners(drawn).len() > 0)
                &&& final(self)@.has_open_round(now)
            },
            final(self)@.extends(old(self)@),
            final(self)@.total_funds() == old(self)@.total_funds(),
    {
        if *caller != self.owner_id {
            return Err(LotteryError::Permission);
        }
        let rounds = self.jackpots.len();
        if rounds == 0 || !self.jackpots[rounds - 1].is_open(now) {
            return Err(LotteryError::NoOpenJackpot);
        }
        let numbers = self.pick_numbers(force_win, now);
        Ok(self.settle(&numbers, now))
    }

    /// Settles the open round on numbers that the caller has drawn, at the time `now`: the
    /// numbers may come in any order and must be a valid pick. Returns whether the round
    /// was closed. Only the owner may.
    pub fn draw_jackpot_with(
        &mut self,
        caller: &AccountId,
        numbers: [u8; 6],
        now: Timestamp,
    ) -> (outcome: Result<bool, LotteryError>)
        requires
            old(self).wf(),
            old(self)@.jackpots.len() < u32::MAX,
        ensures
            final(self).wf(),
            outcome is Ok <==> old(self)@.draw_jackpot_refusal(caller@, now) is None
                && is_valid_pick(numbers@),
            outcome matches Err(e) ==> final(self)@ == old(self)@ && e == (match old(
                self,
            )@.draw_jackpot_refusal(caller@, now) {
                Some(refusal) => refusal,
                None => LotteryError::InvalidNumbers,
            }),
            outcome matches Ok(closed) ==> {
                let drawn = ascending(numbers@);
                &&& final(self)@ == old(self)@.after_draw(drawn, now)
                &&& closed == (old(self)@.winners(drawn).len() > 0)
                &&& final(self)@.has_open_round(now)
            },
            final(self)@.extends(old(self)@),
            final(self)@.total_funds() == old(self)@.total_funds(),
    {
        if *caller != self.owner_id {
            return Err(LotteryError::Permission);
        }
        let rounds = self.jackpots.len();
        if rounds == 0 || !self.jackpots[rounds - 1].is_open(now) {
            return Err(LotteryError::NoOpenJackpot);
        }
        match validate_numbers(&numbers) {
            Err(e) => Err(e),
            Ok(sorted) => Ok(self.settle(&sorted, now)),
        }
    }

    /// The numbers of the next draw in the latest round.
    fn pick_numbers(&self, force_win: bool, now: Timestamp) -> (numbers: [u8; 6])
        requires
            self.wf(),
            self@.jackpots.len() > 0,
        ensures
            numbers@ == self@.numbers_to_draw(force_win, now),
            is_canonical(numbers@),
    {
        let last = self.jackpots.len() - 1;
        let no_of_tickets = self.jackpots[last].ticket_ids.len();
        if force_win && no_of_tickets > 0 {
            let lucky_ticket_index = get_random_number(no_of_tickets as u64, 0, now) - 1;
            let lucky_ticket_id = self.jackpots[last].ticket_ids[lucky_ticket_index as usize];
            proof {
                self.lemma_view();
                lemma_round_tickets(self@, last as int, lucky_ticket_index as int);
                assert(self@.jackpots[last as int].ticket_ids[lucky_ticket_index as int]
                    == lucky_ticket_id);
                assert(ticket_in_order(
                    self@.tickets[lucky_ticket_id - 1],
                    lucky_ticket_id - 1,
                    self@.accounts,
                ));
            }
            self.tickets[(lucky_ticket_id - 1) as usize].picked_numbers
        } else {
            draw_numbers(now)
        }
    }

    /// The tickets of the latest round that win when `drawn` is drawn.
    fn find_winners(&self, drawn: &[u8; 6]) -> (winners: Vec<TicketId>)
        requires
            self.wf(),
            self@.jackpots.len() > 0,
        ensures
            winners@ == self@.winners(drawn@),
    {
        let last = self.jackpots.len() - 1;
        let ghost ids = self.jackpots[last as int].ticket_ids@;
        let ghost test = wins(self@.tickets, drawn@);
        let mut winners: Vec<TicketId> = Vec::new();
        let mut i: usize = 0;
        proof {
            reveal(Seq::filter);
            assert(ids.take(0) =~= Seq::empty());
            self.lemma_view();
            assert(self@.jackpots[last as int].ticket_ids == ids);
            assert forall|k: int| 0 <= k < ids.len() implies 1 <= #[trigger] ids[k]
                <= self.tickets.len() by {
                lemma_round_tickets(self@, last as int, k);
            }
        }
        while i < self.jackpots[last].ticket_ids.len()
            invariant
                last == self.jackpots.len() - 1,
                ids == self.jackpots[last as int].ticket_ids@,
                test == wins(self@.tickets, drawn@),
                i <= ids.len(),
                forall|k: int| 0 <= k < ids.len() ==> 1 <= #[trigger] ids[k] <= self.tickets.len(),
                winners@ == ids.take(i as int).filter(test),
            decreases ids.len() - i,
        {
            let ticket_id: u64 = self.jackpots[last].ticket_ids[i];
            proof {
                assert(ids.take(i + 1) =~= ids.take(i as int).push(ids[i as int]));
                ids.take(i as int).lemma_filter_push(ids[i as int], test);
                assert(self@.tickets[ticket_id - 1].picked_numbers
                    == self.tickets[ticket_id - 1].picked_numbers@);
            }
            if compare_numbers(&self.tickets[(ticket_id - 1) as usize].picked_numbers, drawn) {
                winners.push(ticket_id);
            }
            i += 1;
        }
        proof {
            assert(ids.take(ids.len() as int) =~= ids);
        }
        winners
    }

    /// Puts the draw of `drawn` at the time `now` on record in the open round, and where
    /// tickets win, closes the round, pays the winners and opens the next round.
    fn settle(&mut self, drawn: &[u8; 6], now: Timestamp) -> (closed: bool)
        requires
            old(self).wf(),
            old(self)@.jackpots.len() < u32::MAX,
            old(self)@.has_open_round(now),
            is_canonical(drawn@),
        ensures
            final(self).wf(),
            final(self)@ == old(self)@.after_draw(drawn@, now),
            closed == (old(self)@.winners(drawn@).len() > 0),
            final(self)@.extends(old(self)@),
            final(self)@.total_funds() == old(self)@.total_funds(),
            final(self)@.has_open_round(now),
    {
        let ghost before = self@;
        let ghost after = before.after_draw(drawn@, now);
        let ghost result = DrawingResultView { drawed_numbers: drawn@, created_time: now };
        let ghost all = before.winners(drawn@);
        let last = self.jackpots.len() - 1;
        let winners = self.find_winners(drawn);
        let no_of_winners = winners.len();
        proof {
            lemma_draw(before, drawn@, now);
            self.lemma_view();
        }
        self.jackpots[last].record_draw(DrawingResult::new(*drawn, now));
        proof {
            self.lemma_view();
            assert(self@.jackpots =~= before.jackpots.update(
                last as int,
                before.jackpots[last as int].with_draw(result),
            ));
        }
        if no_of_winners == 0 {
            return false;
        }
        let ghost locked = before.jackpots[last as int].locked_amount;
        let ghost prize = locked / (no_of_winners as nat);
        let price_amount: u128 = self.jackpots[last].locked_amount / (no_of_winners as u128);
        self.jackpots[last].close(now);
        self.jackpots[last].win_ticket_ids = winners;
        let mut i: usize = 0;
        proof {
            self.lemma_view();
            assert(all.take(0) =~= Seq::empty());
            lemma_pay_no_prize(before.accounts, before.tickets, prize);
            assert(prize * 0 == 0);
            assert(self@.jackpots =~= before.jackpots.update(
                last as int,
                Self::settling(
                    before.jackpots[last as int],
                    result,
                    all,
                    (locked - prize * 0) as nat,
                ),
            ));
        }
        while i < no_of_winners
            invariant
                before.wf(),
                last == before.jackpots.len() - 1,
                all == before.winners(drawn@),
                no_of_winners == all.len(),
                i <= no_of_winners,
                price_amount == prize,
                prize * no_of_winners <= locked,
                locked == before.jackpots[last as int].locked_amount,
                forall|k: int|
                    0 <= k < all.len() ==> 1 <= #[trigger] all[k] <= before.tickets.len()
                        && has_account(before.accounts, before.tickets[all[k] - 1].account_id),
                self@.owner_id == before.owner_id,
                self@.tickets == before.tickets,
                self@.accounts == pay_prizes(
                    before.accounts,
                    all.take(i as int),
                    before.tickets,
                    prize,
                ),
                self@.jackpots == before.jackpots.update(
                    last as int,
                    Self::settling(
                        before.jackpots[last as int],
                        result,
                        all,
                        (locked - prize * i) as nat,
                    ),
                ),
            decreases no_of_winners - i,
        {
            let ghost paid = self@.accounts;
            proof {
                self.lemma_view();
            }
            let ticket_id: u64 = self.jackpots[last].win_ticket_ids[i];
            let found = find_account(
                &self.account_infoes,
                &self.tickets[(ticket_id - 1) as usize].account_id,
            );
            let ghost owner = before.tickets[ticket_id - 1].account_id;
            let ghost place = account_index(before.accounts, owner);
            proof {
                assert(ticket_id == all[i as int]);
                assert(self.tickets[ticket_id - 1]@ == before.tickets[ticket_id - 1]);
                assert(paid[place].account_id == owner);
                assert(all.take(i + 1) =~= all.take(i as int).push(ticket_id));
                lemma_pay_one_more(
                    before.accounts,
                    all.take(i as int),
                    ticket_id,
                    before.tickets,
                    prize,
                );
                assert forall|k: int| 0 <= k < all.take(i as int).len() implies has_account(
                    before.accounts,
                    before.tickets[#[trigger] all.take(i as int)[k] - 1].account_id,
                ) by {
                    assert(all.take(i as int)[k] == all[k]);
                }
                lemma_pay_prizes(before.accounts, all.take(i as int), before.tickets, prize);
                lemma_sum_bounds(balances(paid), place);
                lemma_sum_bounds(locked_amounts(before.jackpots), last as int);
                assert(prize * (i + 1) <= prize * no_of_winners) by (nonlinear_arith)
                    requires
                        i + 1 <= no_of_winners,
                        prize >= 0,
                ;
                assert(prize * (i + 1) == prize * i + prize) by (nonlinear_arith);
                assert forall|a: int, b: int| 0 <= a < b < paid.len() implies (
                #[trigger] paid[a]).account_id != (#[trigger] paid[b]).account_id by {
                    assert(before.accounts[a].account_id != before.accounts[b].account_id);
                }
                lemma_account_index(paid, place);
            }
            let at: usize = found.unwrap();
            proof {
                self.lemma_found(at as int);
                assert(at == place);
            }
            self.account_infoes[at].balance = self.account_infoes[at].balance + price_amount;
            self.jackpots[last].locked_amount = self.jackpots[last].locked_amount - price_amount;
            proof {
                self.lemma_view();
                assert(self@.accounts =~= paid.update(
                    place,
                    paid[place].with_balance(paid[place].balance + prize),
                ));
                assert(self@.jackpots =~= before.jackpots.update(
                    last as int,
                    Self::settling(
                        before.jackpots[last as int],
                        result,
                        all,
                        (locked - prize * (i + 1)) as nat,
                    ),
                ));
            }
            i += 1;
        }
        proof {
            assert(all.take(no_of_winners as int) =~= all);
        }
        self.open_next_round(None, 0, now);
        proof {
            assert(self@.jackpots =~= after.jackpots);
        }
        true
    }

    /// The round `open` while it is being settled: the draw `result` on record, closed at
    /// the time of the draw, with the winners `winners`, and `locked_amount` still locked.
    spec fn settling(
        open: JackpotView,
        result: DrawingResultView,
        winners: Seq<TicketId>,
        locked_amount: nat,
    ) -> JackpotView {
        JackpotView {
            win_ticket_ids: winners,
            end_time: Some(result.created_time),
            locked_amount,
            ..open.with_draw(result)
        }
    }

    /// The ledger as a mathematical value holds what the ledger holds, place by place.
    proof fn lemma_view(&self)
        ensures
            self@.owner_id == self.owner_id@,
            self@.accounts.len() == self.account_infoes.len(),
            self@.jackpots.len() == self.jackpots.len(),
            self@.tickets.len() == self.tickets.len(),
            forall|i: int|
                #![trigger self@.accounts[i]]
                #![trigger self.account_infoes[i]]
                0 <= i < self.account_infoes.len() ==> self@.accounts[i]
                    == self.account_infoes[i]@,
            forall|i: int|
                #![trigger self@.jackpots[i]]
                #![trigger self.jackpots[i]]
                0 <= i < self.jackpots.len() ==> self@.jackpots[i] == self.jackpots[i]@,
            forall|i: int|
                #![trigger self@.tickets[i]]
                #![trigger self.tickets[i]]
                0 <= i < self.tickets.len() ==> self@.tickets[i] == self.tickets[i]@,
    {
    }

    /// An account that was found by its id is the account of that id.
    proof fn lemma_found(&self, i: int)
        requires
            0 <= i < self.account_infoes.len(),
        ensures
            has_account(self@.accounts, self.account_infoes[i].account_id@),
            distinct_ids(self@.accounts) ==> account_index(
                self@.accounts,
                self.account_infoes[i].account_id@,
            ) == i,
            self@.accounts[i] == self.account_infoes[i]@,
    {
        assert(self@.accounts[i].account_id == self.account_infoes[i].account_id@);
        if distinct_ids(self@.accounts) {
            lemma_account_index(self@.accounts, i);
        }
    }
}

} // verus!
