use crate::account::{
    account_index, account_or_default, balance_of, balances, distinct_ids, has_account,
    put_account, AccountInfoView,
};
use crate::draw::{drawn_numbers, DrawingResultView};
use crate::funds::sum;
use crate::jackpot::{locked_amounts, JackpotView};
use crate::numbers::{ascending, is_canonical, is_valid_pick};
use crate::random::random_number;
use crate::ticket::TicketView;
use crate::types::{JackpotId, LotteryError, TicketId, Timestamp, ONE_NEAR};
use vstd::prelude::*;

verus! {

/// The ledger as a mathematical value: the owner, the accounts in the order in which they
/// were created, the rounds in the order in which they were created, and every ticket
/// ever sold, in the order of sale.
pub struct LotteryView {
    pub owner_id: Seq<char>,
    pub accounts: Seq<AccountInfoView>,
    pub jackpots: Seq<JackpotView>,
    pub tickets: Seq<TicketView>,
}

/// A ticket as the ledger keeps it at the place `i`: numbered by its place, on canonical
/// numbers, and owned by an account of the ledger.
pub open spec fn ticket_in_order(
    ticket: TicketView,
    i: int,
    accounts: Seq<AccountInfoView>,
) -> bool {
    &&& ticket.id == i + 1
    &&& is_canonical(ticket.picked_numbers)
    &&& has_account(accounts, ticket.account_id)
}

/// A round as the ledger keeps it at the place `i` of `rounds` rounds: numbered by its
/// place, with a positive price, with winners that are among its tickets, with canonical
/// drawing results, closed if and only if it has winners, closed if it is not the latest,
/// and, as long as it is not closed, with the price of each of its tickets locked in it.
pub open spec fn round_in_order(round: JackpotView, i: int, rounds: nat) -> bool {
    &&& round.id == i + 1
    &&& round.ticket_price > 0
    &&& forall|k: int|
        0 <= k < round.win_ticket_ids.len() ==> round.ticket_ids.contains(
            #[trigger] round.win_ticket_ids[k],
        )
    &&& forall|k: int|
        0 <= k < round.drawed_results.len() ==> is_canonical(
            (#[trigger] round.drawed_results[k]).drawed_numbers,
        )
    &&& round.end_time is None <==> round.win_ticket_ids.len() == 0
    &&& round.end_time is None ==> round.seed() >= 0
    &&& round.end_time matches Some(end_time) ==> round.start_time <= end_time
    &&& i < rounds - 1 ==> round.end_time is Some
}

/// The ids of the tickets of the account `account_id` among `tickets`, in the order of
/// sale.
pub open spec fn tickets_owned(tickets: Seq<TicketView>, account_id: Seq<char>) -> Seq<TicketId>
    decreases tickets.len(),
{
    if tickets.len() == 0 {
        Seq::empty()
    } else {
        let earlier = tickets_owned(tickets.drop_last(), account_id);
        if tickets.last().account_id == account_id {
            earlier.push(tickets.last().id)
        } else {
            earlier
        }
    }
}

/// How many tickets each of the rounds holds, in the order of the rounds.
pub open spec fn tickets_sold(rounds: Seq<JackpotView>) -> Seq<nat> {
    Seq::new(rounds.len(), |i: int| rounds[i].ticket_ids.len())
}

/// How many tickets the rounds before the round at the place `i` hold.
pub open spec fn sold_before(rounds: Seq<JackpotView>, i: int) -> nat {
    sum(tickets_sold(rounds).take(i))
}

/// The tickets of a round that follows rounds with `before` tickets are the next ones in
/// the order of sale.
pub open spec fn sold_in_sequence(round: JackpotView, before: nat) -> bool {
    forall|k: int|
        0 <= k < round.ticket_ids.len() ==> #[trigger] round.ticket_ids[k] == before + k + 1
}

/// Every ticket is in exactly one round: the tickets of the rounds, round after round,
/// are the tickets from the first to the last of `tickets` tickets, in the order of sale.
pub open spec fn rounds_hold_tickets(rounds: Seq<JackpotView>, tickets: nat) -> bool {
    &&& forall|i: int|
        0 <= i < rounds.len() ==> sold_in_sequence(#[trigger] rounds[i], sold_before(rounds, i))
    &&& sum(tickets_sold(rounds)) == tickets
}

/// Every ticket is with its owner: each account holds the tickets that it owns, all of
/// them, in the order of sale.
pub open spec fn accounts_hold_tickets(
    accounts: Seq<AccountInfoView>,
    tickets: Seq<TicketView>,
) -> bool {
    forall|i: int|
        0 <= i < accounts.len() ==> (#[trigger] accounts[i]).ticket_ids == tickets_owned(
            tickets,
            accounts[i].account_id,
        )
}

/// The test for a winning ticket: its numbers are the drawn ones.
pub open spec fn wins(tickets: Seq<TicketView>, drawn: Seq<u8>) -> spec_fn(TicketId) -> bool {
    |id: TicketId| tickets[id - 1].picked_numbers == drawn
}

/// The test for a ticket of the account `account_id`.
pub open spec fn owned_by(tickets: Seq<TicketView>, account_id: Seq<char>) -> spec_fn(
    TicketId,
) -> bool {
    |id: TicketId| tickets[id - 1].account_id == account_id
}

/// How many of the winning tickets belong to the account `account_id`.
pub open spec fn times_won(
    winners: Seq<TicketId>,
    tickets: Seq<TicketView>,
    account_id: Seq<char>,
) -> nat {
    winners.filter(owned_by(tickets, account_id)).len()
}

/// The accounts after each winning ticket has brought its owner the amount `prize`.
pub open spec fn pay_prizes(
    accounts: Seq<AccountInfoView>,
    winners: Seq<TicketId>,
    tickets: Seq<TicketView>,
    prize: nat,
) -> Seq<AccountInfoView> {
    Seq::new(
        accounts.len(),
        |i: int|
            accounts[i].with_balance(
                accounts[i].balance + prize * times_won(winners, tickets, accounts[i].account_id),
            ),
    )
}

/// The price of a ticket in a round: the one that was named, or one whole token.
pub open spec fn price_or_default(ticket_price: Option<u128>) -> nat {
    match ticket_price {
        Some(price) => price as nat,
        None => ONE_NEAR as nat,
    }
}

impl LotteryView {
    /// The ledger of the owner `owner_id` before anything has happened.
    pub open spec fn fresh(owner_id: Seq<char>) -> LotteryView {
        LotteryView {
            owner_id,
            accounts: Seq::empty(),
            jackpots: Seq::empty(),
            tickets: Seq::empty(),
        }
    }

    /// The round that was created last, if any.
    pub open spec fn latest(self) -> Option<JackpotView> {
        if self.jackpots.len() == 0 {
            None
        } else {
            Some(self.jackpots.last())
        }
    }

    /// Tells whether there is a round that is open at the time `now`. Only the latest
    /// round can be.
    pub open spec fn has_open_round(self, now: Timestamp) -> bool {
        self.jackpots.len() > 0 && self.jackpots.last().is_open(now)
    }

    /// All the funds that the ledger holds: the balances of the accounts and the amounts
    /// locked in the rounds.
    pub open spec fn total_funds(self) -> nat {
        sum(balances(self.accounts)) + sum(locked_amounts(self.jackpots))
    }

    /// The invariant of the ledger.
    pub open spec fn wf(self) -> bool {
        &&& distinct_ids(self.accounts)
        &&& self.tickets.len() <= u64::MAX
        &&& self.jackpots.len() <= u32::MAX
        &&& forall|i: int|
            0 <= i < self.tickets.len() ==> ticket_in_order(
                #[trigger] self.tickets[i],
                i,
                self.accounts,
            )
        &&& forall|i: int|
            0 <= i < self.jackpots.len() ==> round_in_order(
                #[trigger] self.jackpots[i],
                i,
                self.jackpots.len(),
            )
        &&& accounts_hold_tickets(self.accounts, self.tickets)
        &&& rounds_hold_tickets(self.jackpots, self.tickets.len())
        &&& self.total_funds() <= u128::MAX
    }

    /// The tickets of the account `account_id`, in the order in which it bought them.
    pub open spec fn tickets_of(self, account_id: Seq<char>) -> Seq<TicketView> {
        if has_account(self.accounts, account_id) {
            let ids = self.accounts[account_index(self.accounts, account_id)].ticket_ids;
            Seq::new(ids.len(), |k: int| self.tickets[ids[k] - 1])
        } else {
            Seq::empty()
        }
    }

    /// This ledger is a later state of the ledger `before`: the owner aside, nothing of
    /// `before` was lost or rewritten but its latest round, and that only if it was not
    /// closed. Rounds and tickets were at most added at the end, every account is still
    /// there in its place, and no account lost a ticket.
    pub open spec fn extends(self, before: LotteryView) -> bool {
        &&& before.jackpots.len() <= self.jackpots.len()
        &&& forall|i: int|
            0 <= i < before.jackpots.len() && (i < before.jackpots.len() - 1
                || before.jackpots[i].end_time is Some) ==> #[trigger] self.jackpots[i]
                == before.jackpots[i]
        &&& before.tickets.len() <= self.tickets.len()
        &&& forall|i: int|
            0 <= i < before.tickets.len() ==> #[trigger] self.tickets[i] == before.tickets[i]
        &&& before.accounts.len() <= self.accounts.len()
        &&& forall|i: int|
            0 <= i < before.accounts.len() ==> {
                &&& (#[trigger] self.accounts[i]).account_id == before.accounts[i].account_id
                &&& self.accounts[i].created_time == before.accounts[i].created_time
                &&& before.accounts[i].ticket_ids.is_prefix_of(self.accounts[i].ticket_ids)
            }
    }

    /// The ledger after the account `caller` has deposited `amount` at the time `now`. The
    /// account is created if it did not exist.
    pub open spec fn after_deposit(
        self,
        caller: Seq<char>,
        amount: nat,
        now: Timestamp,
    ) -> LotteryView {
        let account = account_or_default(self.accounts, caller, now);
        LotteryView {
            accounts: put_account(self.accounts, account.with_balance(account.balance + amount)),
            ..self
        }
    }

    /// The ledger after the account `caller`, which exists, has withdrawn all its funds.
    pub open spec fn after_withdraw(self, caller: Seq<char>) -> LotteryView {
        let i = account_index(self.accounts, caller);
        LotteryView { accounts: self.accounts.update(i, self.accounts[i].with_balance(0)), ..self }
    }

    /// What becomes of an attempt of `caller` to create a round at the time `now`: only
    /// the owner may, and only while no round is open.
    pub open spec fn create_jackpot_outcome(self, caller: Seq<char>, now: Timestamp) -> Result<
        (),
        LotteryError,
    > {
        if caller != self.owner_id {
            Err(LotteryError::Permission)
        } else if self.has_open_round(now) {
            Err(LotteryError::Conflict)
        } else {
            Ok(())
        }
    }

    /// The round that would be created next, at the time `now`.
    pub open spec fn next_round(
        self,
        ticket_price: nat,
        initialized_amount: nat,
        now: Timestamp,
    ) -> JackpotView {
        JackpotView::fresh(
            (self.jackpots.len() + 1) as JackpotId,
            now,
            ticket_price,
            initialized_amount,
            now,
        )
    }

    /// The ledger after a round has been created at the time `now`, with the amount
    /// `initialized_amount` locked in it.
    pub open spec fn after_create_jackpot(
        self,
        ticket_price: Option<u128>,
        initialized_amount: nat,
        now: Timestamp,
    ) -> LotteryView {
        LotteryView {
            jackpots: self.jackpots.push(
                self.next_round(price_or_default(ticket_price), initialized_amount, now),
            ),
            ..self
        }
    }

    /// What becomes of an attempt of `caller` to buy a ticket on the numbers `picked` at
    /// the time `now`: a round must be open, the balance of `caller` must cover the price,
    /// and the numbers must be a valid pick. The first of these that fails decides.
    pub open spec fn buy_ticket_outcome(
        self,
        caller: Seq<char>,
        picked: Seq<u8>,
        now: Timestamp,
    ) -> Result<(), LotteryError> {
        if !self.has_open_round(now) {
            Err(LotteryError::NoOpenJackpot)
        } else if balance_of(self.accounts, caller) < self.jackpots.last().ticket_price {
            Err(LotteryError::InsufficientBalance)
        } else if !is_valid_pick(picked) {
            Err(LotteryError::InvalidNumbers)
        } else {
            Ok(())
        }
    }

    /// The ledger after `caller` has bought a ticket on the numbers `picked` at the time
    /// `now`: the ticket is on record with its numbers in ascending order, its price has
    /// moved from the account to the latest round, and both name the ticket.
    pub open spec fn after_buy_ticket(
        self,
        caller: Seq<char>,
        picked: Seq<u8>,
        now: Timestamp,
    ) -> LotteryView {
        let id = (self.tickets.len() + 1) as TicketId;
        let round = self.jackpots.last();
        let account = account_or_default(self.accounts, caller, now);
        LotteryView {
            owner_id: self.owner_id,
            accounts: put_account(
                self.accounts,
                account.with_balance((account.balance - round.ticket_price) as nat).with_ticket(
                    id,
                ),
            ),
            jackpots: self.jackpots.update(
                self.jackpots.len() - 1,
                round.with_ticket(id, round.ticket_price),
            ),
            tickets: self.tickets.push(
                TicketView {
                    id,
                    account_id: caller,
                    picked_numbers: ascending(picked),
                    created_time: now,
                },
            ),
        }
    }

    /// What stands in the way of a draw by `caller` at the time `now`, if anything: only
    /// the owner may draw, and only in an open round.
    pub open spec fn draw_jackpot_refusal(self, caller: Seq<char>, now: Timestamp) -> Option<
        LotteryError,
    > {
        if caller != self.owner_id {
            Some(LotteryError::Permission)
        } else if !self.has_open_round(now) {
            Some(LotteryError::NoOpenJackpot)
        } else {
            None
        }
    }

    /// The numbers that a draw in the latest round at the time `now` comes up with. A
    /// forced win takes the numbers of one of the tickets of the round, picked by the
    /// time; without a ticket in the round, and without force, the numbers are drawn.
    pub open spec fn numbers_to_draw(self, force_win: bool, now: Timestamp) -> Seq<u8> {
        let round = self.jackpots.last();
        if force_win && round.ticket_ids.len() > 0 {
            let lucky = random_number(round.ticket_ids.len() as int, 0, now as int) - 1;
            self.tickets[round.ticket_ids[lucky] - 1].picked_numbers
        } else {
            drawn_numbers(now)
        }
    }

    /// The tickets of the latest round that win when `drawn` is drawn, in the order of sale.
    pub open spec fn winners(self, drawn: Seq<u8>) -> Seq<TicketId> {
        self.jackpots.last().ticket_ids.filter(wins(self.tickets, drawn))
    }

    /// The ledger after `drawn` has been drawn in the latest round at the time `now`. The
    /// draw goes on record. Without a winner nothing else changes. With winners the round
    /// is closed, each winning ticket brings its owner an equal share of the locked
    /// amount, rounded down, what is left of the amount stays locked in the closed round,
    /// and the next round starts at once, at the price of one whole token, with nothing
    /// locked in it.
    pub open spec fn after_draw(self, drawn: Seq<u8>, now: Timestamp) -> LotteryView {
        let last = self.jackpots.len() - 1;
        let round = self.jackpots.last().with_draw(
            DrawingResultView { drawed_numbers: drawn, created_time: now },
        );
        let winners = self.winners(drawn);
        if winners.len() == 0 {
            LotteryView { jackpots: self.jackpots.update(last, round), ..self }
        } else {
            let prize = round.locked_amount / winners.len();
            let settled = JackpotView {
                win_ticket_ids: winners,
                end_time: Some(now),
                locked_amount: (round.locked_amount - prize * winners.len()) as nat,
                ..round
            };
            let closed = LotteryView {
                owner_id: self.owner_id,
                accounts: pay_prizes(self.accounts, winners, self.tickets, prize),
                jackpots: self.jackpots.update(last, settled),
                tickets: self.tickets,
            };
            closed.after_create_jackpot(None, 0, now)
        }
    }
}

} // verus!
