use crate::account::{
    account_index, account_or_default, balance_of, balances, distinct_ids, has_account,
    lemma_account_index, lemma_put_account, lemma_put_account_keeps_places, put_account,
    AccountInfoView,
};
use crate::funds::{lemma_sum_push, lemma_sum_take, lemma_sum_update, sum};
use crate::jackpot::{locked_amounts, JackpotView};
use crate::draw::DrawingResultView;
use crate::model::{
    accounts_hold_tickets, owned_by, pay_prizes, price_or_default, round_in_order,
    rounds_hold_tickets, sold_before, sold_in_sequence, ticket_in_order, tickets_owned,
    tickets_sold, times_won, wins, LotteryView,
};
use crate::numbers::{ascending, is_canonical, is_valid_pick, lemma_ascending_canonical};
use crate::ticket::TicketView;
use crate::types::{LotteryError, TicketId, Timestamp};
use vstd::prelude::*;

verus! {

/// At most one round is open at any time: none but the latest.
pub proof fn lemma_single_open_round(s: LotteryView, i: int, now: Timestamp)
    requires
        s.wf(),
        0 <= i < s.jackpots.len() - 1,
    ensures
        !s.jackpots[i].is_open(now),
{
    assert(round_in_order(s.jackpots[i], i, s.jackpots.len()));
}

/// The winners of a round are among its tickets.
pub proof fn lemma_winners_hold_tickets(s: LotteryView, i: int, k: int)
    requires
        s.wf(),
        0 <= i < s.jackpots.len(),
        0 <= k < s.jackpots[i].win_ticket_ids.len(),
    ensures
        s.jackpots[i].ticket_ids.contains(s.jackpots[i].win_ticket_ids[k]),
{
    assert(round_in_order(s.jackpots[i], i, s.jackpots.len()));
}

/// The tickets of a round exist.
pub proof fn lemma_round_tickets(s: LotteryView, i: int, k: int)
    requires
        s.wf(),
        0 <= i < s.jackpots.len(),
        0 <= k < s.jackpots[i].ticket_ids.len(),
    ensures
        1 <= s.jackpots[i].ticket_ids[k] <= s.tickets.len(),
{
    let sold = tickets_sold(s.jackpots);
    assert(sold_in_sequence(s.jackpots[i], sold_before(s.jackpots, i)));
    lemma_sum_take(sold, i);
    lemma_sum_take(sold, i + 1);
}

/// No ticket is in two rounds, or twice in one: two places among the tickets of the
/// rounds that hold the same ticket are the same place.
pub proof fn lemma_ticket_in_one_round(s: LotteryView, i: int, k: int, j: int, m: int)
    requires
        s.wf(),
        0 <= i < s.jackpots.len(),
        0 <= k < s.jackpots[i].ticket_ids.len(),
        0 <= j < s.jackpots.len(),
        0 <= m < s.jackpots[j].ticket_ids.len(),
        s.jackpots[i].ticket_ids[k] == s.jackpots[j].ticket_ids[m],
    ensures
        i == j,
        k == m,
{
    let sold = tickets_sold(s.jackpots);
    assert(sold_in_sequence(s.jackpots[i], sold_before(s.jackpots, i)));
    assert(sold_in_sequence(s.jackpots[j], sold_before(s.jackpots, j)));
    lemma_round_tickets(s, i, k);
    lemma_round_tickets(s, j, m);
    if i < j {
        lemma_sum_take(sold, i);
        assert(sold.take(j).take(i + 1) =~= sold.take(i + 1));
        lemma_sum_take(sold.take(j), i + 1);
    } else if j < i {
        lemma_sum_take(sold, j);
        assert(sold.take(i).take(j + 1) =~= sold.take(j + 1));
        lemma_sum_take(sold.take(i), j + 1);
    }
}

/// Every ticket is in a round: the id of each ticket is found at some place among the
/// tickets of some round.
pub proof fn lemma_ticket_in_a_round(s: LotteryView, ticket: TicketId) -> (place: (int, int))
    requires
        s.wf(),
        1 <= ticket <= s.tickets.len(),
    ensures
        0 <= place.0 < s.jackpots.len(),
        0 <= place.1 < s.jackpots[place.0].ticket_ids.len(),
        s.jackpots[place.0].ticket_ids[place.1] == ticket,
{
    assert(tickets_sold(s.jackpots).take(s.jackpots.len() as int) =~= tickets_sold(s.jackpots));
    lemma_ticket_among(s, ticket, s.jackpots.len() as int)
}

/// A ticket that is one of as many as the first `rounds` rounds hold is found among the
/// tickets of one of these rounds.
proof fn lemma_ticket_among(s: LotteryView, ticket: TicketId, rounds: int) -> (place: (int, int))
    requires
        s.wf(),
        0 <= rounds <= s.jackpots.len(),
        1 <= ticket <= sold_before(s.jackpots, rounds),
    ensures
        0 <= place.0 < rounds,
        0 <= place.1 < s.jackpots[place.0].ticket_ids.len(),
        s.jackpots[place.0].ticket_ids[place.1] == ticket,
    decreases rounds,
{
    let sold = tickets_sold(s.jackpots);
    if rounds == 0 {
        assert(sold.take(0) =~= Seq::empty());
        (0, 0)
    } else {
        lemma_sum_take(sold, rounds - 1);
        if ticket <= sold_before(s.jackpots, rounds - 1) {
            lemma_ticket_among(s, ticket, rounds - 1)
        } else {
            let k = ticket - sold_before(s.jackpots, rounds - 1) - 1;
            assert(sold_in_sequence(
                s.jackpots[rounds - 1],
                sold_before(s.jackpots, rounds - 1),
            ));
            (rounds - 1, k)
        }
    }
}

/// The tickets that an account holds exist, and each names the account as its owner.
pub proof fn lemma_account_tickets(s: LotteryView, i: int, k: int)
    requires
        s.wf(),
        0 <= i < s.accounts.len(),
        0 <= k < s.accounts[i].ticket_ids.len(),
    ensures
        1 <= s.accounts[i].ticket_ids[k] <= s.tickets.len(),
        s.tickets[s.accounts[i].ticket_ids[k] - 1].account_id == s.accounts[i].account_id,
{
    assert forall|t: int| 0 <= t < s.tickets.len() implies (#[trigger] s.tickets[t]).id == t
        + 1 by {
        assert(ticket_in_order(s.tickets[t], t, s.accounts));
    }
    lemma_owned_tickets(s.tickets, s.accounts[i].account_id, k);
}

/// Every ticket is among the tickets that the account of its owner holds.
pub proof fn lemma_ticket_is_with_owner(s: LotteryView, t: int)
    requires
        s.wf(),
        0 <= t < s.tickets.len(),
    ensures
        has_account(s.accounts, s.tickets[t].account_id),
        s.accounts[account_index(s.accounts, s.tickets[t].account_id)].ticket_ids.contains(
            s.tickets[t].id,
        ),
{
    assert(ticket_in_order(s.tickets[t], t, s.accounts));
    let at = account_index(s.accounts, s.tickets[t].account_id);
    assert(s.accounts[at].ticket_ids == tickets_owned(s.tickets, s.accounts[at].account_id));
    lemma_owner_holds(s.tickets, t);
}

/// The tickets owned by an account, where each ticket is numbered by its place, exist
/// and name the account as their owner.
proof fn lemma_owned_tickets(tickets: Seq<TicketView>, account_id: Seq<char>, k: int)
    requires
        forall|t: int| 0 <= t < tickets.len() ==> (#[trigger] tickets[t]).id == t + 1,
        0 <= k < tickets_owned(tickets, account_id).len(),
    ensures
        1 <= tickets_owned(tickets, account_id)[k] <= tickets.len(),
        tickets[tickets_owned(tickets, account_id)[k] - 1].account_id == account_id,
    decreases tickets.len(),
{
    if tickets.len() > 0 {
        let earlier = tickets_owned(tickets.drop_last(), account_id);
        assert(tickets.last() == tickets[tickets.len() - 1]);
        if k < earlier.len() {
            assert forall|t: int| 0 <= t < tickets.drop_last().len() implies (
            #[trigger] tickets.drop_last()[t]).id == t + 1 by {
                assert(tickets.drop_last()[t] == tickets[t]);
            }
            lemma_owned_tickets(tickets.drop_last(), account_id, k);
            assert(tickets.drop_last()[earlier[k] - 1] == tickets[earlier[k] - 1]);
        }
    }
}

/// The ticket at the place `t` is among the tickets owned by its owner.
proof fn lemma_owner_holds(tickets: Seq<TicketView>, t: int)
    requires
        0 <= t < tickets.len(),
    ensures
        tickets_owned(tickets, tickets[t].account_id).contains(tickets[t].id),
    decreases tickets.len(),
{
    let account_id = tickets[t].account_id;
    let earlier = tickets_owned(tickets.drop_last(), account_id);
    let owned = tickets_owned(tickets, account_id);
    if t == tickets.len() - 1 {
        assert(owned[earlier.len() as int] == tickets[t].id);
    } else {
        assert(tickets.drop_last()[t] == tickets[t]);
        lemma_owner_holds(tickets.drop_last(), t);
        let k = choose|k: int| 0 <= k < earlier.len() && earlier[k] == tickets[t].id;
        assert(owned[k] == tickets[t].id);
    }
}

/// What holds between a ledger and a later state of it holds over any number of
/// operations: a state that is later than a later state is a later state. So whatever
/// happens after a round has ceased to be the latest, or has been closed, the round stays
/// as it was.
pub proof fn lemma_extends_transitive(first: LotteryView, second: LotteryView, third: LotteryView)
    requires
        first.wf(),
        second.wf(),
        second.extends(first),
        third.extends(second),
    ensures
        third.extends(first),
{
    assert forall|i: int|
        0 <= i < first.jackpots.len() && (i < first.jackpots.len() - 1
            || first.jackpots[i].end_time is Some) implies #[trigger] third.jackpots[i]
        == first.jackpots[i] by {
        assert(round_in_order(first.jackpots[i], i, first.jackpots.len()));
        assert(second.jackpots[i] == first.jackpots[i]);
    }
    assert forall|i: int| 0 <= i < first.tickets.len() implies #[trigger] third.tickets[i]
        == first.tickets[i] by {
        assert(second.tickets[i] == first.tickets[i]);
    }
    assert forall|i: int| 0 <= i < first.accounts.len() implies {
        &&& (#[trigger] third.accounts[i]).account_id == first.accounts[i].account_id
        &&& third.accounts[i].created_time == first.accounts[i].created_time
        &&& first.accounts[i].ticket_ids.is_prefix_of(third.accounts[i].ticket_ids)
    } by {
        assert(second.accounts[i].account_id == first.accounts[i].account_id);
        let a = first.accounts[i].ticket_ids;
        let b = second.accounts[i].ticket_ids;
        let c = third.accounts[i].ticket_ids;
        assert(a.is_prefix_of(b));
        assert(b.is_prefix_of(c));
        assert(a =~= c.subrange(0, a.len() as int)) by {
            assert(a == b.subrange(0, a.len() as int));
            assert(b == c.subrange(0, b.len() as int));
        }
    }
}

/// An account that owns none of the tickets holds none.
proof fn lemma_owns_no_ticket(tickets: Seq<TicketView>, account_id: Seq<char>)
    requires
        forall|i: int| 0 <= i < tickets.len() ==> (#[trigger] tickets[i]).account_id != account_id,
    ensures
        tickets_owned(tickets, account_id) == Seq::<TicketId>::empty(),
    decreases tickets.len(),
{
    if tickets.len() > 0 {
        assert(tickets.last() == tickets[tickets.len() - 1]);
        assert forall|i: int| 0 <= i < tickets.drop_last().len() implies (
        #[trigger] tickets.drop_last()[i]).account_id != account_id by {
            assert(tickets.drop_last()[i] == tickets[i]);
        }
        lemma_owns_no_ticket(tickets.drop_last(), account_id);
    }
}

/// The tickets that an account owns among the first `n` tickets are the first of the
/// tickets that it owns.
pub proof fn lemma_owned_prefix(tickets: Seq<TicketView>, n: int, account_id: Seq<char>)
    requires
        0 <= n <= tickets.len(),
    ensures
        tickets_owned(tickets.take(n), account_id).is_prefix_of(
            tickets_owned(tickets, account_id),
        ),
    decreases tickets.len(),
{
    if n == tickets.len() {
        assert(tickets.take(n) =~= tickets);
    } else {
        assert(tickets.drop_last().take(n) =~= tickets.take(n));
        lemma_owned_prefix(tickets.drop_last(), n, account_id);
    }
}

/// A ticket that is sold is one more ticket of its owner, and of nobody else.
pub proof fn lemma_owns_one_more(
    tickets: Seq<TicketView>,
    ticket: TicketView,
    account_id: Seq<char>,
)
    ensures
        tickets_owned(tickets.push(ticket), account_id) == if ticket.account_id == account_id {
            tickets_owned(tickets, account_id).push(ticket.id)
        } else {
            tickets_owned(tickets, account_id)
        },
{
    assert(tickets.push(ticket).drop_last() =~= tickets);
}

/// Rounds that hold the same tickets as before hold every ticket as before.
proof fn lemma_same_tickets_sold(before: Seq<JackpotView>, after: Seq<JackpotView>, tickets: nat)
    requires
        rounds_hold_tickets(before, tickets),
        after.len() == before.len(),
        forall|i: int|
            0 <= i < before.len() ==> (#[trigger] after[i]).ticket_ids == before[i].ticket_ids,
    ensures
        rounds_hold_tickets(after, tickets),
{
    assert(tickets_sold(after) =~= tickets_sold(before));
    assert forall|i: int| 0 <= i < after.len() implies sold_in_sequence(
        #[trigger] after[i],
        sold_before(after, i),
    ) by {
        assert(sold_in_sequence(before[i], sold_before(before, i)));
    }
}

/// A round without tickets that is added to the rounds leaves every ticket where it is.
proof fn lemma_round_added(rounds: Seq<JackpotView>, round: JackpotView, tickets: nat)
    requires
        rounds_hold_tickets(rounds, tickets),
        round.ticket_ids.len() == 0,
    ensures
        rounds_hold_tickets(rounds.push(round), tickets),
{
    let after = rounds.push(round);
    assert(tickets_sold(after) =~= tickets_sold(rounds).push(0));
    lemma_sum_push(tickets_sold(rounds), 0);
    assert forall|i: int| 0 <= i < after.len() implies sold_in_sequence(
        #[trigger] after[i],
        sold_before(after, i),
    ) by {
        assert(tickets_sold(after).take(i) =~= tickets_sold(rounds).take(i));
        if i < rounds.len() {
            assert(sold_in_sequence(rounds[i], sold_before(rounds, i)));
        }
    }
}

/// The next ticket, sold in the latest round, is held by that round, and every other
/// ticket stays where it is.
proof fn lemma_ticket_added(rounds: Seq<JackpotView>, sold: JackpotView, tickets: nat)
    requires
        rounds_hold_tickets(rounds, tickets),
        rounds.len() > 0,
        sold.ticket_ids == rounds.last().ticket_ids.push((tickets + 1) as TicketId),
        tickets < u64::MAX,
    ensures
        rounds_hold_tickets(rounds.update(rounds.len() - 1, sold), tickets + 1),
{
    let last = rounds.len() - 1;
    let after = rounds.update(last, sold);
    let held = rounds[last].ticket_ids.len();
    assert(tickets_sold(after) =~= tickets_sold(rounds).update(last, held + 1));
    lemma_sum_update(tickets_sold(rounds), last, held + 1);
    lemma_sum_take(tickets_sold(rounds), last);
    assert(tickets_sold(rounds).take(last + 1) =~= tickets_sold(rounds));
    assert forall|i: int| 0 <= i < after.len() implies sold_in_sequence(
        #[trigger] after[i],
        sold_before(after, i),
    ) by {
        assert(tickets_sold(after).take(i) =~= tickets_sold(rounds).take(i));
        assert(sold_in_sequence(rounds[i], sold_before(rounds, i)));
        if i == last {
            assert forall|k: int| 0 <= k < sold.ticket_ids.len() implies (
            #[trigger] sold.ticket_ids[k]) == sold_before(after, i) + k + 1 by {
                if k < held {
                    assert(sold.ticket_ids[k] == rounds[last].ticket_ids[k]);
                }
            }
        }
    }
}

/// The next ticket is one more ticket of the account of its owner, and of no other
/// account.
proof fn lemma_ticket_handed_over(
    accounts: Seq<AccountInfoView>,
    tickets: Seq<TicketView>,
    ticket: TicketView,
    at: int,
)
    requires
        distinct_ids(accounts),
        accounts_hold_tickets(accounts, tickets),
        0 <= at < accounts.len(),
        accounts[at].account_id == ticket.account_id,
    ensures
        forall|balance: nat|
            accounts_hold_tickets(
                #[trigger] accounts.update(
                    at,
                    accounts[at].with_balance(balance).with_ticket(ticket.id),
                ),
                tickets.push(ticket),
            ),
{
    assert forall|balance: nat|
        accounts_hold_tickets(
            #[trigger] accounts.update(
                at,
                accounts[at].with_balance(balance).with_ticket(ticket.id),
            ),
            tickets.push(ticket),
        ) by {
        let after = accounts.update(at, accounts[at].with_balance(balance).with_ticket(ticket.id));
        assert forall|i: int| 0 <= i < after.len() implies (#[trigger] after[i]).ticket_ids
            == tickets_owned(tickets.push(ticket), after[i].account_id) by {
            lemma_owns_one_more(tickets, ticket, after[i].account_id);
            assert(accounts[i].ticket_ids == tickets_owned(tickets, accounts[i].account_id));
            if i != at {
                lemma_account_index(accounts, i);
                lemma_account_index(accounts, at);
            }
        }
    }
}

/// Replacing the account of `caller` by one with the same tickets and time of creation,
/// or adding such an account where `caller` has none, keeps the ledger in order but for
/// the bound on its funds, and the new ledger is a later state of the old one.
proof fn lemma_account_replaced(s: LotteryView, account: AccountInfoView, now: Timestamp)
    requires
        s.wf(),
        account.ticket_ids == account_or_default(s.accounts, account.account_id, now).ticket_ids,
        account.created_time == account_or_default(
            s.accounts,
            account.account_id,
            now,
        ).created_time,
    ensures
        ({
            let after = LotteryView { accounts: put_account(s.accounts, account), ..s };
            &&& after.extends(s)
            &&& after.total_funds() + balance_of(s.accounts, account.account_id)
                == s.total_funds() + account.balance
            &&& after.total_funds() <= u128::MAX ==> after.wf()
            &&& balance_of(after.accounts, account.account_id) == account.balance
        }),
{
    let after = LotteryView { accounts: put_account(s.accounts, account), ..s };
    lemma_put_account(s.accounts, account);
    lemma_put_account_keeps_places(s.accounts, account);
    assert forall|i: int| 0 <= i < after.tickets.len() implies ticket_in_order(
        #[trigger] after.tickets[i],
        i,
        after.accounts,
    ) by {
        assert(ticket_in_order(s.tickets[i], i, s.accounts));
    }
    assert forall|i: int| 0 <= i < after.accounts.len() implies (
    #[trigger] after.accounts[i]).ticket_ids == tickets_owned(
        after.tickets,
        after.accounts[i].account_id,
    ) && (i < s.accounts.len() ==> after.accounts[i].created_time == s.accounts[i].created_time
        && after.accounts[i].ticket_ids == s.accounts[i].ticket_ids) by {
        if i < s.accounts.len() {
            assert(s.accounts[i].ticket_ids == tickets_owned(s.tickets, s.accounts[i].account_id));
            if after.accounts[i] != s.accounts[i] {
                lemma_account_index(s.accounts, i);
            }
        } else {
            assert forall|t: int| 0 <= t < s.tickets.len() implies (
            #[trigger] s.tickets[t]).account_id != account.account_id by {
                assert(ticket_in_order(s.tickets[t], t, s.accounts));
            }
            lemma_owns_no_ticket(s.tickets, account.account_id);
        }
    }
    assert forall|i: int| 0 <= i < after.jackpots.len() implies round_in_order(
        #[trigger] after.jackpots[i],
        i,
        after.jackpots.len(),
    ) by {
        assert(round_in_order(s.jackpots[i], i, s.jackpots.len()));
    }
}

/// A deposit adds exactly its amount to the funds that the ledger holds, and to the
/// balance of the depositor. It keeps the ledger in order and rewrites nothing of its
/// history.
pub proof fn lemma_deposit(s: LotteryView, caller: Seq<char>, amount: nat, now: Timestamp)
    requires
        s.wf(),
        s.total_funds() + amount <= u128::MAX,
    ensures
        s.after_deposit(caller, amount, now).wf(),
        s.after_deposit(caller, amount, now).extends(s),
        s.after_deposit(caller, amount, now).total_funds() == s.total_funds() + amount,
        balance_of(s.after_deposit(caller, amount, now).accounts, caller) == balance_of(
            s.accounts,
            caller,
        ) + amount,
{
    let account = account_or_default(s.accounts, caller, now);
    lemma_account_replaced(s, account.with_balance(account.balance + amount), now);
}

/// A withdrawal takes exactly the balance of the account out of the funds that the ledger
/// holds, and leaves the account with nothing. It keeps the ledger in order and rewrites
/// nothing of its history.
pub proof fn lemma_withdraw(s: LotteryView, caller: Seq<char>)
    requires
        s.wf(),
        balance_of(s.accounts, caller) > 0,
    ensures
        has_account(s.accounts, caller),
        s.after_withdraw(caller).wf(),
        s.after_withdraw(caller).extends(s),
        s.after_withdraw(caller).total_funds() + balance_of(s.accounts, caller)
            == s.total_funds(),
        balance_of(s.after_withdraw(caller).accounts, caller) == 0,
{
    let i = account_index(s.accounts, caller);
    let account = s.accounts[i];
    assert(put_account(s.accounts, account.with_balance(0)) == s.accounts.update(
        i,
        account.with_balance(0),
    ));
    lemma_account_replaced(s, account.with_balance(0), 0);
}

/// Creating a round adds exactly the amount locked in it to the funds that the ledger
/// holds. It keeps the ledger in order, where the round before it is closed, and rewrites
/// nothing of its history.
pub proof fn lemma_create_jackpot(
    s: LotteryView,
    ticket_price: Option<u128>,
    initialized_amount: nat,
    now: Timestamp,
)
    requires
        s.wf(),
        s.jackpots.len() < u32::MAX,
        s.jackpots.len() > 0 ==> s.jackpots.last().end_time is Some,
        price_or_default(ticket_price) > 0,
        s.total_funds() + initialized_amount <= u128::MAX,
    ensures
        s.after_create_jackpot(ticket_price, initialized_amount, now).wf(),
        s.after_create_jackpot(ticket_price, initialized_amount, now).extends(s),
        s.after_create_jackpot(ticket_price, initialized_amount, now).total_funds()
            == s.total_funds() + initialized_amount,
        s.after_create_jackpot(ticket_price, initialized_amount, now).has_open_round(now),
        s.after_create_jackpot(ticket_price, initialized_amount, now).jackpots.last().seed()
            == initialized_amount,
{
    let after = s.after_create_jackpot(ticket_price, initialized_amount, now);
    assert(locked_amounts(after.jackpots) =~= locked_amounts(s.jackpots).push(initialized_amount));
    lemma_sum_push(locked_amounts(s.jackpots), initialized_amount);
    lemma_round_added(s.jackpots, after.jackpots.last(), s.tickets.len());
    assert(after.jackpots == s.jackpots.push(after.jackpots.last()));
    assert forall|i: int| 0 <= i < after.tickets.len() implies ticket_in_order(
        #[trigger] after.tickets[i],
        i,
        after.accounts,
    ) by {
        assert(ticket_in_order(s.tickets[i], i, s.accounts));
    }
    assert forall|i: int| 0 <= i < after.jackpots.len() implies round_in_order(
        #[trigger] after.jackpots[i],
        i,
        after.jackpots.len(),
    ) by {
        if i < s.jackpots.len() {
            assert(round_in_order(s.jackpots[i], i, s.jackpots.len()));
        } else {
            assert(after.jackpots[i].ticket_price * 0 == 0);
        }
    }
    assert(price_or_default(ticket_price) * 0 == 0);
}

/// While the round that was created last is open, no other round can be created: the
/// owner's attempt at any later time is a conflict.
pub proof fn lemma_second_round_conflicts(
    s: LotteryView,
    ticket_price: Option<u128>,
    initialized_amount: nat,
    now: Timestamp,
    later: Timestamp,
)
    requires
        s.create_jackpot_outcome(s.owner_id, now) is Ok,
        now <= later,
    ensures
        s.after_create_jackpot(ticket_price, initialized_amount, now).create_jackpot_outcome(
            s.owner_id,
            later,
        ) == Err::<(), LotteryError>(LotteryError::Conflict),
{
}

/// Six different numbers between 1 and `MAX_DRAWING_NUMBER`, in whatever order they come,
/// buy a ticket if and only if a round is open and the balance of the buyer covers the
/// price.
pub proof fn lemma_valid_pick_is_sold(
    s: LotteryView,
    caller: Seq<char>,
    picked: Seq<u8>,
    now: Timestamp,
)
    requires
        is_valid_pick(picked),
    ensures
        s.buy_ticket_outcome(caller, picked, now) is Ok <==> s.has_open_round(now) && balance_of(
            s.accounts,
            caller,
        ) >= s.jackpots.last().ticket_price,
{
}

/// Buying a ticket moves exactly its price from the balance of the buyer into the latest
/// round and changes nothing else of the funds. The ticket is on record with the picked
/// numbers in ascending order. The purchase keeps the ledger in order and rewrites nothing
/// of its history but the latest round.
pub proof fn lemma_buy_ticket(s: LotteryView, caller: Seq<char>, picked: Seq<u8>, now: Timestamp)
    requires
        s.wf(),
        s.tickets.len() < u64::MAX,
        s.buy_ticket_outcome(caller, picked, now) is Ok,
    ensures
        has_account(s.accounts, caller),
        s.after_buy_ticket(caller, picked, now).wf(),
        s.after_buy_ticket(caller, picked, now).extends(s),
        s.after_buy_ticket(caller, picked, now).total_funds() == s.total_funds(),
        balance_of(s.after_buy_ticket(caller, picked, now).accounts, caller)
            + s.jackpots.last().ticket_price == balance_of(s.accounts, caller),
        s.after_buy_ticket(caller, picked, now).jackpots.last().locked_amount
            == s.jackpots.last().locked_amount + s.jackpots.last().ticket_price,
        s.after_buy_ticket(caller, picked, now).tickets.last().picked_numbers == ascending(picked),
        s.after_buy_ticket(caller, picked, now).tickets.last().account_id == caller,
        s.after_buy_ticket(caller, picked, now).jackpots.last().seed() == s.jackpots.last().seed(),
{
    let after = s.after_buy_ticket(caller, picked, now);
    let last = s.jackpots.len() - 1;
    let round = s.jackpots[last];
    let price = round.ticket_price;
    let id = (s.tickets.len() + 1) as u64;
    assert(round_in_order(round, last, s.jackpots.len()));
    let at = account_index(s.accounts, caller);
    let account = s.accounts[at];
    let paid = account.with_balance((account.balance - price) as nat).with_ticket(id);
    lemma_put_account(s.accounts, paid);
    lemma_put_account_keeps_places(s.accounts, paid);
    lemma_account_index(s.accounts, at);
    lemma_ascending_canonical(picked);
    assert(locked_amounts(after.jackpots) =~= locked_amounts(s.jackpots).update(
        last,
        round.locked_amount + price,
    ));
    lemma_sum_update(locked_amounts(s.jackpots), last, round.locked_amount + price);
    lemma_ticket_added(s.jackpots, after.jackpots.last(), s.tickets.len());
    lemma_ticket_handed_over(s.accounts, s.tickets, after.tickets.last(), at);
    assert(after.accounts == s.accounts.update(
        at,
        account.with_balance((account.balance - price) as nat).with_ticket(id),
    ));
    assert(after.jackpots.last().seed() == round.seed()) by {
        assert(price * (round.ticket_ids.len() + 1) == price * round.ticket_ids.len() + price)
            by (nonlinear_arith);
        assert(after.jackpots.last() == round.with_ticket(id, price));
    }
    assert forall|i: int| 0 <= i < after.tickets.len() implies ticket_in_order(
        #[trigger] after.tickets[i],
        i,
        after.accounts,
    ) by {
        if i < s.tickets.len() {
            assert(ticket_in_order(s.tickets[i], i, s.accounts));
        }
    }
    assert forall|i: int| 0 <= i < after.accounts.len() implies (
    #[trigger] after.accounts[i]).created_time == s.accounts[i].created_time
        && s.accounts[i].ticket_ids.is_prefix_of(after.accounts[i].ticket_ids) by {
        if i == at {
            assert(after.accounts[i] == paid);
        } else {
            assert(after.accounts[i] == s.accounts[i]);
        }
    }
    assert forall|i: int| 0 <= i < after.jackpots.len() implies round_in_order(
        #[trigger] after.jackpots[i],
        i,
        after.jackpots.len(),
    ) by {
        assert(round_in_order(s.jackpots[i], i, s.jackpots.len()));
    }
}

/// Without a winning ticket no account is paid anything.
pub proof fn lemma_pay_no_prize(
    accounts: Seq<AccountInfoView>,
    tickets: Seq<TicketView>,
    prize: nat,
)
    ensures
        pay_prizes(accounts, Seq::empty(), tickets, prize) == accounts,
{
    let paid = pay_prizes(accounts, Seq::empty(), tickets, prize);
    assert forall|i: int| 0 <= i < accounts.len() implies paid[i] == accounts[i] by {
        reveal(Seq::filter);
        assert(times_won(Seq::empty(), tickets, accounts[i].account_id) == 0);
        assert(prize * 0 == 0);
    }
    assert(paid =~= accounts);
}

/// One more winning ticket brings its owner the prize once more, and nobody else anything.
pub proof fn lemma_pay_one_more(
    accounts: Seq<AccountInfoView>,
    winners: Seq<TicketId>,
    winner: TicketId,
    tickets: Seq<TicketView>,
    prize: nat,
)
    requires
        distinct_ids(accounts),
        has_account(accounts, tickets[winner - 1].account_id),
    ensures
        ({
            let at = account_index(accounts, tickets[winner - 1].account_id);
            let paid = pay_prizes(accounts, winners, tickets, prize);
            pay_prizes(accounts, winners.push(winner), tickets, prize) == paid.update(
                at,
                paid[at].with_balance(paid[at].balance + prize),
            )
        }),
{
    let owner = tickets[winner - 1].account_id;
    let at = account_index(accounts, owner);
    let paid = pay_prizes(accounts, winners, tickets, prize);
    let more = pay_prizes(accounts, winners.push(winner), tickets, prize);
    let expected = paid.update(at, paid[at].with_balance(paid[at].balance + prize));
    assert forall|i: int| 0 <= i < accounts.len() implies more[i] == expected[i] by {
        let id = accounts[i].account_id;
        let won = times_won(winners, tickets, id);
        winners.lemma_filter_push(winner, owned_by(tickets, id));
        lemma_account_index(accounts, i);
        if i == at {
            assert(times_won(winners.push(winner), tickets, id) == won + 1);
            assert(prize * (won + 1) == prize * won + prize) by (nonlinear_arith);
        } else {
            assert(times_won(winners.push(winner), tickets, id) == won);
        }
    }
    assert(more =~= expected);
}

/// Paying the prize for each winning ticket adds the prize to the balances as often as
/// there are winning tickets, and leaves every account its id, its tickets and its time of
/// creation.
pub proof fn lemma_pay_prizes(
    accounts: Seq<AccountInfoView>,
    winners: Seq<TicketId>,
    tickets: Seq<TicketView>,
    prize: nat,
)
    requires
        distinct_ids(accounts),
        forall|k: int|
            0 <= k < winners.len() ==> has_account(
                accounts,
                tickets[#[trigger] winners[k] - 1].account_id,
            ),
    ensures
        sum(balances(pay_prizes(accounts, winners, tickets, prize))) == sum(balances(accounts))
            + prize * winners.len(),
    decreases winners.len(),
{
    if winners.len() == 0 {
        lemma_pay_no_prize(accounts, tickets, prize);
        assert(winners =~= Seq::empty());
        assert(prize * 0 == 0);
    } else {
        let rest = winners.drop_last();
        let winner = winners.last();
        assert(rest.push(winner) =~= winners);
        assert forall|k: int| 0 <= k < rest.len() implies has_account(
            accounts,
            tickets[#[trigger] rest[k] - 1].account_id,
        ) by {
            assert(rest[k] == winners[k]);
        }
        lemma_pay_prizes(accounts, rest, tickets, prize);
        lemma_pay_one_more(accounts, rest, winner, tickets, prize);
        let at = account_index(accounts, tickets[winner - 1].account_id);
        let paid = pay_prizes(accounts, rest, tickets, prize);
        let more = pay_prizes(accounts, winners, tickets, prize);
        assert(balances(more) =~= balances(paid).update(at, paid[at].balance + prize));
        lemma_sum_update(balances(paid), at, paid[at].balance + prize);
        assert(prize * (rest.len() + 1) == prize * rest.len() + prize) by (nonlinear_arith);
    }
}

/// A draw moves funds from the round to the winners and changes nothing of the sum that
/// the ledger holds: what the winners are paid leaves the round, and what cannot be split
/// evenly stays locked in it. A draw with winners closes the round and opens the next
/// one; a draw without winners leaves the round open. A draw keeps the ledger in order and
/// rewrites nothing of its history but the latest round.
pub proof fn lemma_draw(s: LotteryView, drawn: Seq<u8>, now: Timestamp)
    requires
        s.wf(),
        s.jackpots.len() < u32::MAX,
        s.has_open_round(now),
        is_canonical(drawn),
    ensures
        s.after_draw(drawn, now).wf(),
        s.after_draw(drawn, now).extends(s),
        s.after_draw(drawn, now).total_funds() == s.total_funds(),
        s.after_draw(drawn, now).has_open_round(now),
        s.winners(drawn).len() == 0 ==> s.after_draw(drawn, now).jackpots.len()
            == s.jackpots.len() && s.after_draw(drawn, now).jackpots.last().seed()
            == s.jackpots.last().seed(),
        s.winners(drawn).len() > 0 ==> s.after_draw(drawn, now).jackpots.len()
            == s.jackpots.len() + 1 && s.after_draw(drawn, now).jackpots[s.jackpots.len()
            - 1].end_time == Some(now),
        forall|k: int|
            0 <= k < s.winners(drawn).len() ==> 1 <= #[trigger] s.winners(drawn)[k]
                <= s.tickets.len() && has_account(
                s.accounts,
                s.tickets[s.winners(drawn)[k] - 1].account_id,
            ),
        s.winners(drawn).len() > 0 ==> (s.jackpots.last().locked_amount / s.winners(
            drawn,
        ).len()) * s.winners(drawn).len() <= s.jackpots.last().locked_amount,
{
    let after = s.after_draw(drawn, now);
    let last = s.jackpots.len() - 1;
    let open = s.jackpots[last];
    let round = open.with_draw(DrawingResultView { drawed_numbers: drawn, created_time: now });
    let winners = s.winners(drawn);
    assert(round_in_order(open, last, s.jackpots.len()));
    assert forall|k: int| 0 <= k < round.drawed_results.len() implies is_canonical(
        (#[trigger] round.drawed_results[k]).drawed_numbers,
    ) by {
        if k < open.drawed_results.len() {
            assert(round.drawed_results[k] == open.drawed_results[k]);
        }
    }
    assert forall|k: int| 0 <= k < winners.len() implies open.ticket_ids.contains(
        #[trigger] winners[k],
    ) && 1 <= winners[k] <= s.tickets.len() && has_account(
        s.accounts,
        s.tickets[winners[k] - 1].account_id,
    ) by {
        assert(winners.contains(winners[k]));
        open.ticket_ids.lemma_filter_contains_rev(wins(s.tickets, drawn), winners[k]);
        let j = choose|j: int| 0 <= j < open.ticket_ids.len() && open.ticket_ids[j] == winners[k];
        lemma_round_tickets(s, last, j);
        assert(ticket_in_order(s.tickets[winners[k] - 1], winners[k] - 1, s.accounts));
    }
    if winners.len() == 0 {
        assert(locked_amounts(after.jackpots) =~= locked_amounts(s.jackpots));
        lemma_same_tickets_sold(s.jackpots, after.jackpots, s.tickets.len());
        assert forall|i: int| 0 <= i < after.tickets.len() implies ticket_in_order(
            #[trigger] after.tickets[i],
            i,
            after.accounts,
        ) by {
            assert(ticket_in_order(s.tickets[i], i, s.accounts));
        }
        assert forall|i: int| 0 <= i < after.jackpots.len() implies round_in_order(
            #[trigger] after.jackpots[i],
            i,
            after.jackpots.len(),
        ) by {
            assert(round_in_order(s.jackpots[i], i, s.jackpots.len()));
        }
    } else {
        let count = winners.len();
        let prize = round.locked_amount / count;
        assert(prize * count <= round.locked_amount) by (nonlinear_arith)
            requires
                prize == round.locked_amount / count,
                count > 0,
        ;
        let settled = JackpotView {
            win_ticket_ids: winners,
            end_time: Some(now),
            locked_amount: (round.locked_amount - prize * count) as nat,
            ..round
        };
        let closed = LotteryView {
            owner_id: s.owner_id,
            accounts: pay_prizes(s.accounts, winners, s.tickets, prize),
            jackpots: s.jackpots.update(last, settled),
            tickets: s.tickets,
        };
        lemma_pay_prizes(s.accounts, winners, s.tickets, prize);
        lemma_same_tickets_sold(s.jackpots, closed.jackpots, s.tickets.len());
        assert(locked_amounts(closed.jackpots) =~= locked_amounts(s.jackpots).update(
            last,
            settled.locked_amount,
        ));
        lemma_sum_update(locked_amounts(s.jackpots), last, settled.locked_amount);
        assert(closed.total_funds() == s.total_funds());
        assert forall|id: Seq<char>| has_account(s.accounts, id) implies has_account(
            closed.accounts,
            id,
        ) by {
            let i = account_index(s.accounts, id);
            assert(closed.accounts[i].account_id == id);
        }
        assert forall|i: int, j: int| 0 <= i < j < closed.accounts.len() implies (
        #[trigger] closed.accounts[i]).account_id != (#[trigger] closed.accounts[j]).account_id by {
            assert(s.accounts[i].account_id != s.accounts[j].account_id);
        }
        assert forall|i: int| 0 <= i < closed.tickets.len() implies ticket_in_order(
            #[trigger] closed.tickets[i],
            i,
            closed.accounts,
        ) by {
            assert(ticket_in_order(s.tickets[i], i, s.accounts));
        }
        assert forall|i: int| 0 <= i < closed.accounts.len() implies (
        #[trigger] closed.accounts[i]).ticket_ids == tickets_owned(
            closed.tickets,
            closed.accounts[i].account_id,
        ) by {
            assert(s.accounts[i].ticket_ids == tickets_owned(s.tickets, s.accounts[i].account_id));
        }
        assert forall|i: int| 0 <= i < closed.jackpots.len() implies round_in_order(
            #[trigger] closed.jackpots[i],
            i,
            closed.jackpots.len(),
        ) by {
            assert(round_in_order(s.jackpots[i], i, s.jackpots.len()));
        }
        assert(closed.wf());
        lemma_create_jackpot(closed, None, 0, now);
        assert(after == closed.after_create_jackpot(None, 0, now));
        assert(closed.extends(s));
    }
}

} // verus!
