//! A verified lottery ledger.
//!
//! The ledger keeps accounts with their balances, sells tickets on six numbers for the
//! round that is open, draws, and pays what is locked in a round to the tickets that
//! win. Funds enter and leave it by deposits and withdrawals only; tickets and rounds
//! are numbered in the order in which they come; at most one round is open at a time;
//! and an operation that is refused changes nothing. Each of these is stated in the
//! contracts of the operations and proved.
//!
//! [`Lottery`] is the ledger with its operations, [`model`] says what they do to the
//! ledger as a mathematical value, and [`laws`] holds what follows from that for every
//! ledger. The time, the caller and the amounts come in as arguments: the ledger reads
//! no clock and moves no tokens.

pub mod account;
pub mod audit;
pub mod draw;
pub mod funds;
pub mod jackpot;
pub mod laws;
pub mod lottery;
pub mod model;
pub mod numbers;
pub mod random;
pub mod ticket;
pub mod types;

pub use crate::account::AccountInfo;
pub use crate::draw::{draw_from, draw_numbers, DrawingResult};
pub use crate::jackpot::{Jackpot, JackpotStatus};
pub use crate::lottery::Lottery;
pub use crate::numbers::{compare_numbers, sort_numbers, validate_numbers};
pub use crate::random::get_random_number;
pub use crate::ticket::Ticket;
pub use crate::types::{
    AccountId, Balance, JackpotId, LotteryError, TicketId, Timestamp, MAX_DRAWING_NUMBER, ONE_NEAR,
};
