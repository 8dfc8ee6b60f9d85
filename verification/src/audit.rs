use crate::account::{balances, distinct_ids, find_account, AccountInfo};
use crate::funds::{lemma_sum_take, sum};
use crate::jackpot::{locked_amounts, Jackpot};
use crate::laws::{lemma_owned_prefix, lemma_owns_one_more};
use crate::model::{
    accounts_hold_tickets, round_in_order, rounds_hold_tickets, sold_before, sold_in_sequence,
    ticket_in_order, tickets_owned, tickets_sold, LotteryView,
};
use crate::numbers::{check_canonical, is_canonical};
use crate::ticket::Ticket;
use crate::types::TicketId;
use vstd::prelude::*;

verus! {

/// The ledger that holds `accounts`, `jackpots` and `tickets` and belongs to `owner_id`,
/// as a mathematical value.
pub open spec fn ledger_of(
    owner_id: Seq<char>,
    accounts: &Vec<AccountInfo>,
    jackpots: &Vec<Jackpot>,
    tickets: &Vec<Ticket>,
) -> LotteryView {
    LotteryView {
        owner_id,
        accounts: accounts.deep_view(),
        jackpots: jackpots.deep_view(),
        tickets: tickets.deep_view(),
    }
}

/// Tells whether accounts, rounds and tickets make up a ledger that is in order.
pub fn is_in_order(
    accounts: &Vec<AccountInfo>,
    jackpots: &Vec<Jackpot>,
    tickets: &Vec<Ticket>,
) -> (ok: bool)
    ensures
        ok == ledger_of(Seq::empty(), accounts, jackpots, tickets).wf(),
{
    if jackpots.len() > 0xffff_ffff {
        return false;
    }
    has_distinct_ids(accounts) && tickets_in_order(tickets, accounts) && accounts_in_order(
        accounts,
        tickets,
    ) && rounds_in_order(jackpots) && rounds_hold_every_ticket(jackpots, tickets.len())
        && funds_fit(accounts, jackpots)
}

/// Tells whether no two of the accounts have the same id.
pub fn has_distinct_ids(accounts: &Vec<AccountInfo>) -> (ok: bool)
    ensures
        ok == distinct_ids(accounts.deep_view()),
{
    let ghost views = accounts.deep_view();
    let mut j: usize = 0;
    while j < accounts.len()
        invariant
            j <= accounts.len(),
            views == accounts.deep_view(),
            forall|a: int, b: int|
                0 <= a < b < j ==> (#[trigger] views[a]).account_id != (
                #[trigger] views[b]).account_id,
        decreases accounts.len() - j,
    {
        let mut i: usize = 0;
        while i < j
            invariant
                i <= j < accounts.len(),
                views == accounts.deep_view(),
                forall|a: int|
                    0 <= a < i ==> (#[trigger] views[a]).account_id
                        != views[j as int].account_id,
            decreases j - i,
        {
            if accounts[i].account_id == accounts[j].account_id {
                assert(views[i as int].account_id == views[j as int].account_id);
                return false;
            }
            i += 1;
        }
        j += 1;
    }
    true
}

/// Tells whether each ticket is numbered by its place, is on canonical numbers and
/// belongs to one of the accounts.
pub fn tickets_in_order(tickets: &Vec<Ticket>, accounts: &Vec<AccountInfo>) -> (ok: bool)
    ensures
        ok == (forall|i: int|
            0 <= i < tickets.len() ==> ticket_in_order(
                #[trigger] tickets.deep_view()[i],
                i,
                accounts.deep_view(),
            )),
{
    let ghost views = tickets.deep_view();
    let mut i: usize = 0;
    while i < tickets.len()
        invariant
            i <= tickets.len(),
            views == tickets.deep_view(),
            forall|k: int|
                0 <= k < i ==> ticket_in_order(#[trigger] views[k], k, accounts.deep_view()),
        decreases tickets.len() - i,
    {
        assert(views[i as int] == tickets[i as int]@);
        if tickets[i].id != i as u64 + 1 || !check_canonical(&tickets[i].picked_numbers)
            || find_account(accounts, &tickets[i].account_id).is_none() {
            assert(!ticket_in_order(views[i as int], i as int, accounts.deep_view()));
            return false;
        }
        i += 1;
    }
    true
}

/// Tells whether the account holds the tickets that it owns, all of them, in the order of
/// sale.
pub fn holds_its_tickets(account: &AccountInfo, tickets: &Vec<Ticket>) -> (ok: bool)
    ensures
        ok == (account@.ticket_ids == tickets_owned(tickets.deep_view(), account@.account_id)),
{
    let ghost all = tickets.deep_view();
    let ghost owner = account@.account_id;
    let ghost ids = account@.ticket_ids;
    let mut held: usize = 0;
    let mut t: usize = 0;
    proof {
        assert(all.take(0) =~= Seq::empty());
        assert(ids.take(0) =~= Seq::empty());
    }
    while t < tickets.len()
        invariant
            all == tickets.deep_view(),
            owner == account@.account_id,
            ids == account@.ticket_ids,
            t <= tickets.len(),
            held <= ids.len(),
            ids.take(held as int) == tickets_owned(all.take(t as int), owner),
        decreases tickets.len() - t,
    {
        proof {
            assert(all.take(t + 1) =~= all.take(t as int).push(all[t as int]));
            lemma_owns_one_more(all.take(t as int), all[t as int], owner);
            lemma_owned_prefix(all, t + 1, owner);
            assert(all[t as int] == tickets[t as int]@);
        }
        if tickets[t].account_id == account.account_id {
            if held >= account.ticket_ids.len() || account.ticket_ids[held] != tickets[t].id {
                proof {
                    let part = tickets_owned(all.take(t + 1), owner);
                    assert(part.len() == held + 1);
                    assert(part[held as int] == all[t as int].id);
                    if ids == tickets_owned(all, owner) {
                        assert(ids.subrange(0, part.len() as int)[held as int] == ids[held as int]);
                    }
                }
                return false;
            }
            proof {
                assert(ids.take(held + 1) =~= ids.take(held as int).push(ids[held as int]));
            }
            held += 1;
        }
        t += 1;
    }
    proof {
        assert(all.take(t as int) =~= all);
        if held == ids.len() {
            assert(ids.take(held as int) =~= ids);
        } else {
            assert(ids.take(held as int).len() != ids.len());
        }
    }
    held == account.ticket_ids.len()
}

/// Tells whether each account holds the tickets that it owns, all of them, in the order
/// of sale.
pub fn accounts_in_order(accounts: &Vec<AccountInfo>, tickets: &Vec<Ticket>) -> (ok: bool)
    ensures
        ok == accounts_hold_tickets(accounts.deep_view(), tickets.deep_view()),
{
    let ghost views = accounts.deep_view();
    let mut i: usize = 0;
    while i < accounts.len()
        invariant
            i <= accounts.len(),
            views == accounts.deep_view(),
            forall|k: int|
                0 <= k < i ==> (#[trigger] views[k]).ticket_ids == tickets_owned(
                    tickets.deep_view(),
                    views[k].account_id,
                ),
        decreases accounts.len() - i,
    {
        assert(views[i as int] == accounts[i as int]@);
        if !holds_its_tickets(&accounts[i], tickets) {
            return false;
        }
        i += 1;
    }
    true
}

/// Tells whether `id` is among `ids`.
pub fn holds_ticket(ids: &Vec<TicketId>, id: TicketId) -> (found: bool)
    ensures
        found == ids@.contains(id),
{
    let mut i: usize = 0;
    while i < ids.len()
        invariant
            i <= ids.len(),
            forall|k: int| 0 <= k < i ==> ids@[k] != id,
        decreases ids.len() - i,
    {
        if ids[i] == id {
            return true;
        }
        i += 1;
    }
    false
}

/// Tells whether `round` is in order at the place `i` of `rounds` rounds.
pub fn round_is_in_order(round: &Jackpot, i: usize, rounds: usize) -> (ok: bool)
    requires
        i < rounds,
    ensures
        ok == round_in_order(round@, i as int, rounds as nat),
{
    if round.id as u64 != i as u64 + 1 || round.ticket_price == 0 {
        return false;
    }
    if i < rounds - 1 && round.end_time.is_none() {
        return false;
    }
    match round.end_time {
        None => {
            if round.win_ticket_ids.len() != 0 {
                return false;
            }
            match round.ticket_price.checked_mul(round.ticket_ids.len() as u128) {
                None => {
                    return false;
                },
                Some(sold) => {
                    if round.locked_amount < sold {
                        return false;
                    }
                },
            }
        },
        Some(end_time) => {
            if round.win_ticket_ids.len() == 0 || round.start_time > end_time {
                return false;
            }
        },
    }
    let mut w: usize = 0;
    while w < round.win_ticket_ids.len()
        invariant
            w <= round.win_ticket_ids.len(),
            forall|m: int|
                0 <= m < w ==> round@.ticket_ids.contains(#[trigger] round@.win_ticket_ids[m]),
        decreases round.win_ticket_ids.len() - w,
    {
        if !holds_ticket(&round.ticket_ids, round.win_ticket_ids[w]) {
            assert(!round@.ticket_ids.contains(round@.win_ticket_ids[w as int]));
            return false;
        }
        w += 1;
    }
    let mut d: usize = 0;
    while d < round.drawed_results.len()
        invariant
            d <= round.drawed_results.len(),
            forall|m: int|
                0 <= m < d ==> is_canonical(
                    (#[trigger] round@.drawed_results[m]).drawed_numbers,
                ),
        decreases round.drawed_results.len() - d,
    {
        assert(round@.drawed_results[d as int] == round.drawed_results[d as int]@);
        if !check_canonical(&round.drawed_results[d].drawed_numbers) {
            assert(!is_canonical(round@.drawed_results[d as int].drawed_numbers));
            return false;
        }
        d += 1;
    }
    true
}

/// Tells whether each round is in order at its place.
pub fn rounds_in_order(jackpots: &Vec<Jackpot>) -> (ok: bool)
    ensures
        ok == (forall|i: int|
            0 <= i < jackpots.len() ==> round_in_order(
                #[trigger] jackpots.deep_view()[i],
                i,
                jackpots.len() as nat,
            )),
{
    let ghost views = jackpots.deep_view();
    let mut i: usize = 0;
    while i < jackpots.len()
        invariant
            i <= jackpots.len(),
            views == jackpots.deep_view(),
            forall|k: int|
                0 <= k < i ==> round_in_order(#[trigger] views[k], k, jackpots.len() as nat),
        decreases jackpots.len() - i,
    {
        assert(views[i as int] == jackpots[i as int]@);
        if !round_is_in_order(&jackpots[i], i, jackpots.len()) {
            return false;
        }
        i += 1;
    }
    true
}

/// Tells whether the tickets of the rounds, round after round, are the tickets from the
/// first to the last of `tickets` tickets, in the order of sale.
pub fn rounds_hold_every_ticket(jackpots: &Vec<Jackpot>, tickets: usize) -> (ok: bool)
    ensures
        ok == rounds_hold_tickets(jackpots.deep_view(), tickets as nat),
{
    let ghost views = jackpots.deep_view();
    let ghost sold = tickets_sold(views);
    let mut before: usize = 0;
    let mut i: usize = 0;
    proof {
        assert(sold.take(0) =~= Seq::empty());
    }
    while i < jackpots.len()
        invariant
            i <= jackpots.len(),
            views == jackpots.deep_view(),
            sold == tickets_sold(views),
            before == sold_before(views, i as int),
            before <= tickets,
            forall|k: int|
                0 <= k < i ==> sold_in_sequence(#[trigger] views[k], sold_before(views, k)),
        decreases jackpots.len() - i,
    {
        proof {
            assert(views[i as int] == jackpots[i as int]@);
            lemma_sum_take(sold, i as int);
            lemma_sum_take(sold, i + 1);
        }
        let held: usize = jackpots[i].ticket_ids.len();
        if held > tickets - before {
            return false;
        }
        let mut k: usize = 0;
        while k < held
            invariant
                i < jackpots.len(),
                views == jackpots.deep_view(),
                views[i as int] == jackpots[i as int]@,
                held == jackpots[i as int].ticket_ids.len(),
                k <= held,
                before + held <= tickets,
                before == sold_before(views, i as int),
                forall|m: int|
                    0 <= m < k ==> #[trigger] views[i as int].ticket_ids[m] == before + m + 1,
            decreases held - k,
        {
            if jackpots[i].ticket_ids[k] != (before + k) as u64 + 1 {
                assert(views[i as int].ticket_ids[k as int] != before + k + 1);
                assert(!sold_in_sequence(views[i as int], sold_before(views, i as int)));
                return false;
            }
            k += 1;
        }
        before = before + held;
        i += 1;
    }
    proof {
        assert(sold.take(i as int) =~= sold);
    }
    before == tickets
}

/// Tells whether the balances of the accounts and the amounts locked in the rounds add up
/// to an amount that can be held.
pub fn funds_fit(accounts: &Vec<AccountInfo>, jackpots: &Vec<Jackpot>) -> (ok: bool)
    ensures
        ok == (sum(balances(accounts.deep_view())) + sum(locked_amounts(jackpots.deep_view()))
            <= u128::MAX),
{
    let ghost all_balances = balances(accounts.deep_view());
    let ghost all_locked = locked_amounts(jackpots.deep_view());
    let mut total: u128 = 0;
    let mut i: usize = 0;
    proof {
        assert(all_balances.take(0) =~= Seq::empty());
    }
    while i < accounts.len()
        invariant
            i <= accounts.len(),
            all_balances == balances(accounts.deep_view()),
            all_balances.len() == accounts.len(),
            total == sum(all_balances.take(i as int)),
        decreases accounts.len() - i,
    {
        proof {
            lemma_sum_take(all_balances, i as int);
            lemma_sum_take(all_balances, i + 1);
            assert(all_balances[i as int] == accounts[i as int].balance);
        }
        if accounts[i].balance > u128::MAX - total {
            return false;
        }
        total = total + accounts[i].balance;
        i += 1;
    }
    proof {
        lemma_sum_take(all_balances, i as int);
        assert(all_locked.take(0) =~= Seq::empty());
    }
    let mut j: usize = 0;
    while j < jackpots.len()
        invariant
            j <= jackpots.len(),
            all_balances == balances(accounts.deep_view()),
            all_locked == locked_amounts(jackpots.deep_view()),
            all_locked.len() == jackpots.len(),
            total == sum(all_balances) + sum(all_locked.take(j as int)),
        decreases jackpots.len() - j,
    {
        proof {
            lemma_sum_take(all_locked, j as int);
            lemma_sum_take(all_locked, j + 1);
            assert(all_locked[j as int] == jackpots[j as int].locked_amount);
        }
        if jackpots[j].locked_amount > u128::MAX - total {
            return false;
        }
        total = total + jackpots[j].locked_amount;
        j += 1;
    }
    proof {
        lemma_sum_take(all_locked, j as int);
    }
    true
}

} // verus!
