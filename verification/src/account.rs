use crate::funds::{lemma_sum_push, lemma_sum_update, sum};
use crate::types::{AccountId, Balance, TicketId, Timestamp};
use vstd::prelude::*;

verus! {

/// What the ledger keeps of one account.
#[derive(Debug)]
pub struct AccountInfo {
    pub account_id: AccountId,
    pub balance: Balance,
    pub ticket_ids: Vec<TicketId>,
    pub created_time: Timestamp,
}

/// What an account holds.
pub struct AccountInfoView {
    pub account_id: Seq<char>,
    pub balance: nat,
    pub ticket_ids: Seq<TicketId>,
    pub created_time: Timestamp,
}

impl View for AccountInfo {
    type V = AccountInfoView;

    open spec fn view(&self) -> AccountInfoView {
        AccountInfoView {
            account_id: self.account_id@,
            balance: self.balance as nat,
            ticket_ids: self.ticket_ids@,
            created_time: self.created_time,
        }
    }
}

impl AccountInfoView {
    /// The account `account_id` as it is created at the time `now`: no funds, no tickets.
    pub open spec fn fresh(account_id: Seq<char>, now: Timestamp) -> AccountInfoView {
        AccountInfoView { account_id, balance: 0, ticket_ids: Seq::empty(), created_time: now }
    }

    /// This account with another balance.
    pub open spec fn with_balance(self, balance: nat) -> AccountInfoView {
        AccountInfoView { balance, ..self }
    }

    /// This account with one more ticket.
    pub open spec fn with_ticket(self, ticket_id: TicketId) -> AccountInfoView {
        AccountInfoView { ticket_ids: self.ticket_ids.push(ticket_id), ..self }
    }
}

impl AccountInfo {
    /// Makes the account `key` at the time `now`, with no funds and no tickets.
    pub fn new(key: AccountId, now: Timestamp) -> (account: Self)
        ensures
            account@ == AccountInfoView::fresh(key@, now),
    {
        AccountInfo { account_id: key, balance: 0, ticket_ids: Vec::new(), created_time: now }
    }
}

impl Clone for AccountInfo {
    fn clone(&self) -> (copy: Self)
        ensures
            copy@ == self@,
    {
        let copy = AccountInfo {
            account_id: self.account_id.clone(),
            balance: self.balance,
            ticket_ids: self.ticket_ids.clone(),
            created_time: self.created_time,
        };
        assert(copy.ticket_ids@ =~= self.ticket_ids@);
        copy
    }
}

/// One of the characters that may stand between the parts of an account id.
pub open spec fn is_separator(c: char) -> bool {
    c == '-' || c == '_' || c == '.'
}

/// A well-formed account id: 2 to 64 characters, each a lower-case letter of the English
/// alphabet, a digit or a separator, where no separator stands first, last or next to
/// another one.
pub open spec fn is_account_id(account_id: Seq<char>) -> bool {
    &&& 2 <= account_id.len() <= 64
    &&& forall|i: int|
        0 <= i < account_id.len() ==> {
            let c = #[trigger] account_id[i];
            ||| 'a' <= c <= 'z'
            ||| '0' <= c <= '9'
            ||| is_separator(c)
        }
    &&& !is_separator(account_id.first())
    &&& !is_separator(account_id.last())
    &&& forall|i: int|
        0 < i < account_id.len() ==> !(is_separator(account_id[i - 1]) && is_separator(
            #[trigger] account_id[i],
        ))
}

/// Tells whether `account_id` is a well-formed account id.
///
/// Calls `near_sdk::env::is_valid_account_id` on the bytes of the id. That function
/// refuses a length in bytes that is not between 2 and 64, then goes through the bytes
/// and refuses any that is not a lower-case letter, a digit or one of `-`, `_` and `.`,
/// and any separator that comes first or follows another, and in the end a separator that
/// comes last. An id that passes has only characters of one byte, so its characters are
/// its bytes; the contract states this of the characters.
#[verifier::external_body]
pub(crate) fn is_valid_account_id(account_id: &AccountId) -> (valid: bool)
    ensures
        valid == is_account_id(account_id@),
{
    near_sdk::env::is_valid_account_id(account_id.as_bytes())
}

/// Tells whether the accounts hold one with the id `account_id`.
pub open spec fn has_account(accounts: Seq<AccountInfoView>, account_id: Seq<char>) -> bool {
    exists|i: int| 0 <= i < accounts.len() && (#[trigger] accounts[i]).account_id == account_id
}

/// The place of the account `account_id` among the accounts that hold it.
pub open spec fn account_index(accounts: Seq<AccountInfoView>, account_id: Seq<char>) -> int {
    choose|i: int| 0 <= i < accounts.len() && (#[trigger] accounts[i]).account_id == account_id
}

/// No two of the accounts have the same id.
pub open spec fn distinct_ids(accounts: Seq<AccountInfoView>) -> bool {
    forall|i: int, j: int|
        0 <= i < j < accounts.len() ==> (#[trigger] accounts[i]).account_id != (
        #[trigger] accounts[j]).account_id
}

/// The account `account_id`, or what it would be if it were created at the time `now`.
pub open spec fn account_or_default(
    accounts: Seq<AccountInfoView>,
    account_id: Seq<char>,
    now: Timestamp,
) -> AccountInfoView {
    if has_account(accounts, account_id) {
        accounts[account_index(accounts, account_id)]
    } else {
        AccountInfoView::fresh(account_id, now)
    }
}

/// The balance of the account `account_id`; 0 where there is no such account.
pub open spec fn balance_of(accounts: Seq<AccountInfoView>, account_id: Seq<char>) -> nat {
    if has_account(accounts, account_id) {
        accounts[account_index(accounts, account_id)].balance
    } else {
        0
    }
}

/// The accounts with `account` in the place of the one of the same id, or added at the end
/// where there is none.
pub open spec fn put_account(accounts: Seq<AccountInfoView>, account: AccountInfoView) -> Seq<
    AccountInfoView,
> {
    if has_account(accounts, account.account_id) {
        accounts.update(account_index(accounts, account.account_id), account)
    } else {
        accounts.push(account)
    }
}

/// The balances of the accounts, in their order.
pub open spec fn balances(accounts: Seq<AccountInfoView>) -> Seq<nat> {
    Seq::new(accounts.len(), |i: int| accounts[i].balance)
}

/// Among accounts with different ids, an account is found at its own place.
pub proof fn lemma_account_index(accounts: Seq<AccountInfoView>, i: int)
    requires
        distinct_ids(accounts),
        0 <= i < accounts.len(),
    ensures
        has_account(accounts, accounts[i].account_id),
        account_index(accounts, accounts[i].account_id) == i,
{
    let found = account_index(accounts, accounts[i].account_id);
    if found < i {
        assert(accounts[found].account_id != accounts[i].account_id);
    } else if i < found {
        assert(accounts[i].account_id != accounts[found].account_id);
    }
}

/// Putting an account among accounts with different ids leaves the ids different, puts
/// the account where its id is looked up, and changes the sum of the balances by what the
/// balance of that id changes.
pub proof fn lemma_put_account(accounts: Seq<AccountInfoView>, account: AccountInfoView)
    requires
        distinct_ids(accounts),
    ensures
        distinct_ids(put_account(accounts, account)),
        has_account(put_account(accounts, account), account.account_id),
        put_account(accounts, account)[account_index(
            put_account(accounts, account),
            account.account_id,
        )] == account,
        balance_of(put_account(accounts, account), account.account_id) == account.balance,
        sum(balances(put_account(accounts, account))) + balance_of(accounts, account.account_id)
            == sum(balances(accounts)) + account.balance,
{
    let put = put_account(accounts, account);
    if has_account(accounts, account.account_id) {
        let i = account_index(accounts, account.account_id);
        assert(put[i] == account);
        assert forall|a: int, b: int| 0 <= a < b < put.len() implies (#[trigger] put[a]).account_id
            != (#[trigger] put[b]).account_id by {
            assert(accounts[a].account_id != accounts[b].account_id);
        }
        lemma_account_index(put, i);
        assert(balances(put) =~= balances(accounts).update(i, account.balance));
        lemma_sum_update(balances(accounts), i, account.balance);
    } else {
        let i = accounts.len() as int;
        assert(put[i] == account);
        assert forall|a: int, b: int| 0 <= a < b < put.len() implies (#[trigger] put[a]).account_id
            != (#[trigger] put[b]).account_id by {
            if b == i {
                assert(accounts[a].account_id != account.account_id);
            } else {
                assert(accounts[a].account_id != accounts[b].account_id);
            }
        }
        lemma_account_index(put, i);
        assert(balances(put) =~= balances(accounts).push(account.balance));
        lemma_sum_push(balances(accounts), account.balance);
    }
}

/// Putting an account keeps every account in its place, with its id.
pub proof fn lemma_put_account_keeps_places(
    accounts: Seq<AccountInfoView>,
    account: AccountInfoView,
)
    ensures
        accounts.len() <= put_account(accounts, account).len(),
        forall|i: int|
            0 <= i < accounts.len() ==> (#[trigger] put_account(accounts, account)[i]).account_id
                == accounts[i].account_id,
        forall|i: int|
            0 <= i < accounts.len() ==> #[trigger] put_account(accounts, account)[i] == accounts[i]
                || put_account(accounts, account)[i] == account,
        forall|i: int|
            accounts.len() <= i < put_account(accounts, account).len() ==> #[trigger] put_account(
                accounts,
                account,
            )[i] == account,
        forall|id: Seq<char>|
            has_account(accounts, id) ==> has_account(put_account(accounts, account), id),
{
    let put = put_account(accounts, account);
    assert forall|id: Seq<char>| has_account(accounts, id) implies has_account(put, id) by {
        let i = account_index(accounts, id);
        assert(put[i].account_id == id);
    }
}

/// Looks for the account `account_id` and returns its place.
pub fn find_account(accounts: &Vec<AccountInfo>, account_id: &AccountId) -> (found: Option<usize>)
    ensures
        found is Some <==> has_account(accounts.deep_view(), account_id@),
        found matches Some(i) ==> i < accounts.len() && accounts[i as int].account_id@
            == account_id@,
{
    let mut i: usize = 0;
    while i < accounts.len()
        invariant
            i <= accounts.len(),
            forall|k: int| 0 <= k < i ==> accounts[k].account_id@ != account_id@,
        decreases accounts.len() - i,
    {
        if accounts[i].account_id == *account_id {
            assert(accounts.deep_view()[i as int].account_id == account_id@);
            return Some(i);
        }
        i += 1;
    }
    assert forall|k: int| 0 <= k < accounts.deep_view().len() implies (
    #[trigger] accounts.deep_view()[k]).account_id != account_id@ by {
        assert(accounts[k].account_id@ != account_id@);
    }
    None
}

impl DeepView for AccountInfo {
    type V = AccountInfoView;

    open spec fn deep_view(&self) -> AccountInfoView {
        self@
    }
}

} // verus!
