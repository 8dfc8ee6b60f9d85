use crate::draw::{DrawingResult, DrawingResultView};
use crate::types::{Balance, JackpotId, TicketId, Timestamp};
use vstd::prelude::*;

verus! {

/// Whether a round takes tickets and draws.
#[derive(Clone, Copy, Debug, PartialEq, Eq, Structural)]
pub enum JackpotStatus {
    Open,
    Close,
}

/// One round of the lottery: the tickets sold for it, the funds locked in it, and its draws.
#[derive(Debug)]
pub struct Jackpot {
    pub id: JackpotId,
    pub ticket_price: u128,
    pub locked_amount: Balance,
    pub ticket_ids: Vec<TicketId>,
    pub win_ticket_ids: Vec<TicketId>,
    pub drawed_results: Vec<DrawingResult>,
    pub start_time: Timestamp,
    pub end_time: Option<Timestamp>,
    pub created_time: Timestamp,
}

/// What a round holds.
pub struct JackpotView {
    pub id: JackpotId,
    pub ticket_price: nat,
    pub locked_amount: nat,
    pub ticket_ids: Seq<TicketId>,
    pub win_ticket_ids: Seq<TicketId>,
    pub drawed_results: Seq<DrawingResultView>,
    pub start_time: Timestamp,
    pub end_time: Option<Timestamp>,
    pub created_time: Timestamp,
}

impl View for Jackpot {
    type V = JackpotView;

    open spec fn view(&self) -> JackpotView {
        JackpotView {
            id: self.id,
            ticket_price: self.ticket_price as nat,
            locked_amount: self.locked_amount as nat,
            ticket_ids: self.ticket_ids@,
            win_ticket_ids: self.win_ticket_ids@,
            drawed_results: self.drawed_results.deep_view(),
            start_time: self.start_time,
            end_time: self.end_time,
            created_time: self.created_time,
        }
    }
}

impl DeepView for Jackpot {
    type V = JackpotView;

    open spec fn deep_view(&self) -> JackpotView {
        self@
    }
}

impl JackpotView {
    /// The round `id` as it is created at the time `now`, to start at `start_time`: no
    /// tickets, no draws, the amount `initialized_amount` locked in it.
    pub open spec fn fresh(
        id: JackpotId,
        start_time: Timestamp,
        ticket_price: nat,
        initialized_amount: nat,
        now: Timestamp,
    ) -> JackpotView {
        JackpotView {
            id,
            ticket_price,
            locked_amount: initialized_amount,
            ticket_ids: Seq::empty(),
            win_ticket_ids: Seq::empty(),
            drawed_results: Seq::empty(),
            start_time,
            end_time: None,
            created_time: now,
        }
    }

    /// What was locked in the round when it was created, as long as nothing has been
    /// paid out of it: the locked amount less the price of each ticket sold.
    pub open spec fn seed(self) -> int {
        self.locked_amount - self.ticket_price * self.ticket_ids.len()
    }

    /// A round is open from its start time on, until it is given an end time.
    pub open spec fn is_open(self, now: Timestamp) -> bool {
        self.end_time is None && self.start_time <= now
    }

    /// The status of the round at the time `now`.
    pub open spec fn status(self, now: Timestamp) -> JackpotStatus {
        if self.is_open(now) {
            JackpotStatus::Open
        } else {
            JackpotStatus::Close
        }
    }

    /// This round with one more ticket sold at the price `price`.
    pub open spec fn with_ticket(self, ticket_id: TicketId, price: nat) -> JackpotView {
        JackpotView {
            ticket_ids: self.ticket_ids.push(ticket_id),
            locked_amount: self.locked_amount + price,
            ..self
        }
    }

    /// This round with one more draw on record.
    pub open spec fn with_draw(self, result: DrawingResultView) -> JackpotView {
        JackpotView { drawed_results: self.drawed_results.push(result), ..self }
    }

    /// This round closed at the time `end_time`, unless it was closed before: a round
    /// that is closed stays as it is.
    pub open spec fn closed_at(self, end_time: Timestamp) -> JackpotView {
        if self.end_time is Some {
            self
        } else {
            JackpotView { end_time: Some(end_time), ..self }
        }
    }
}

/// A round that has an end time is closed at every time.
pub proof fn lemma_closed_round_stays_closed(round: JackpotView, now: Timestamp)
    requires
        round.end_time is Some,
    ensures
        round.status(now) == JackpotStatus::Close,
        !round.is_open(now),
{
}

/// Closing is final: to close a round once more changes nothing, and the end time that
/// it was given first stands.
pub proof fn lemma_close_is_final(round: JackpotView, first: Timestamp, second: Timestamp)
    ensures
        round.closed_at(first).end_time is Some,
        round.closed_at(first).closed_at(second) == round.closed_at(first),
{
}

/// A round that is open stays open as time goes on, as long as it is given no end time.
pub proof fn lemma_open_round_stays_open(round: JackpotView, now: Timestamp, later: Timestamp)
    requires
        round.is_open(now),
        now <= later,
    ensures
        round.is_open(later),
{
}

impl Jackpot {
    /// Makes the round `id` at the time `now`, to start at `start_time`, with the amount
    /// `initialized_amount` locked in it.
    pub fn new(
        id: JackpotId,
        start_time: Timestamp,
        ticket_price: u128,
        initialized_amount: u128,
        now: Timestamp,
    ) -> (round: Self)
        ensures
            round@ == JackpotView::fresh(
                id,
                start_time,
                ticket_price as nat,
                initialized_amount as nat,
                now,
            ),
    {
        let round = Jackpot {
            id,
            ticket_price,
            locked_amount: initialized_amount,
            ticket_ids: Vec::new(),
            win_ticket_ids: Vec::new(),
            drawed_results: Vec::new(),
            start_time,
            end_time: None,
            created_time: now,
        };
        assert(round@.drawed_results =~= Seq::empty());
        round
    }

    /// Tells whether the round is open at the time `now`. A round with an end time is
    /// closed for good.
    pub fn get_status(&self, now: Timestamp) -> (status: JackpotStatus)
        ensures
            status == self@.status(now),
            self@.end_time is Some ==> status == JackpotStatus::Close,
    {
        match self.end_time {
            None => {
                if self.start_time <= now {
                    JackpotStatus::Open
                } else {
                    JackpotStatus::Close
                }
            },
            Some(_) => JackpotStatus::Close,
        }
    }

    /// Tells whether the round is open at the time `now`.
    pub fn is_open(&self, now: Timestamp) -> (open: bool)
        ensures
            open == self@.is_open(now),
    {
        self.end_time.is_none() && self.start_time <= now
    }

    /// Adds the ticket `ticket_id`, sold at the price of this round, and locks the price in
    /// the round.
    pub fn add_ticket(&mut self, ticket_id: TicketId, price: u128)
        requires
            price == old(self).ticket_price,
            old(self).locked_amount + price <= u128::MAX,
        ensures
            final(self)@ == old(self)@.with_ticket(ticket_id, price as nat),
    {
        self.ticket_ids.push(ticket_id);
        self.locked_amount = self.locked_amount + price;
    }

    /// Puts the outcome of a draw on record, whether anyone won or not.
    pub fn record_draw(&mut self, result: DrawingResult)
        ensures
            final(self)@ == old(self)@.with_draw(result@),
    {
        self.drawed_results.push(result);
        assert(self@.drawed_results =~= old(self)@.drawed_results.push(result@));
    }

    /// Closes the round at the time `end_time`. A round that is closed stays as it is.
    pub fn close(&mut self, end_time: Timestamp)
        ensures
            final(self)@ == old(self)@.closed_at(end_time),
            final(self)@.end_time is Some,
    {
        if self.end_time.is_none() {
            self.end_time = Some(end_time);
        }
    }
}

impl Clone for Jackpot {
    fn clone(&self) -> (copy: Self)
        ensures
            copy@ == self@,
    {
        let copy = Jackpot {
            id: self.id,
            ticket_price: self.ticket_price,
            locked_amount: self.locked_amount,
            ticket_ids: self.ticket_ids.clone(),
            win_ticket_ids: self.win_ticket_ids.clone(),
            drawed_results: self.drawed_results.clone(),
            start_time: self.start_time,
            end_time: self.end_time,
            created_time: self.created_time,
        };
        assert(copy.ticket_ids@ =~= self.ticket_ids@);
        assert(copy.win_ticket_ids@ =~= self.win_ticket_ids@);
        assert(copy@.drawed_results =~= self@.drawed_results);
        copy
    }
}

/// The amounts locked in the rounds, in their order.
pub open spec fn locked_amounts(rounds: Seq<JackpotView>) -> Seq<nat> {
    Seq::new(rounds.len(), |i: int| rounds[i].locked_amount)
}

} // verus!
