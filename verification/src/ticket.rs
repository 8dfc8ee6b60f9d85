use crate::types::{AccountId, TicketId, Timestamp};
use vstd::prelude::*;

verus! {

/// A player's bet on six numbers. A ticket never changes once it is created.
#[derive(Debug)]
pub struct Ticket {
    pub id: TicketId,
    pub account_id: AccountId,
    pub picked_numbers: [u8; 6],
    pub created_time: Timestamp,
}

/// What a ticket holds.
pub struct TicketView {
    pub id: TicketId,
    pub account_id: Seq<char>,
    pub picked_numbers: Seq<u8>,
    pub created_time: Timestamp,
}

impl View for Ticket {
    type V = TicketView;

    open spec fn view(&self) -> TicketView {
        TicketView {
            id: self.id,
            account_id: self.account_id@,
            picked_numbers: self.picked_numbers@,
            created_time: self.created_time,
        }
    }
}

impl DeepView for Ticket {
    type V = TicketView;

    open spec fn deep_view(&self) -> TicketView {
        self@
    }
}

impl Ticket {
    /// Makes the ticket `id` of the account `account_id` on the numbers `picked_numbers`,
    /// created at the time `now`.
    pub fn new(
        id: &TicketId,
        account_id: &AccountId,
        picked_numbers: &[u8; 6],
        now: Timestamp,
    ) -> (ticket: Self)
        ensures
            ticket@ == (TicketView {
                id: *id,
                account_id: account_id@,
                picked_numbers: picked_numbers@,
                created_time: now,
            }),
    {
        Ticket {
            id: *id,
            account_id: account_id.clone(),
            picked_numbers: *picked_numbers,
            created_time: now,
        }
    }
}

impl Clone for Ticket {
    fn clone(&self) -> (copy: Self)
        ensures
            copy@ == self@,
    {
        Ticket {
            id: self.id,
            account_id: self.account_id.clone(),
            picked_numbers: self.picked_numbers,
            created_time: self.created_time,
        }
    }
}

} // verus!
