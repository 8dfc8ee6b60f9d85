use vstd::prelude::*;

verus! {

/// Name of an account on the ledger.
pub type AccountId = String;

/// Amount of tokens, in the smallest unit.
pub type Balance = u128;

/// Nanoseconds since the Unix epoch.
pub type Timestamp = u64;

/// Identifier of a ticket; the n-th ticket ever sold has id n.
pub type TicketId = u64;

/// Identifier of a jackpot round; the n-th round ever created has id n.
pub type JackpotId = u32;

/// One whole token, in the smallest unit. The price of a ticket where the owner names none.
pub const ONE_NEAR: u128 = 1_000_000_000_000_000_000_000_000;

/// Largest number that can be picked on a ticket or come up in a draw.
pub const MAX_DRAWING_NUMBER: u8 = 55;

/// Why an operation on the ledger was rejected. A rejected operation changes nothing.
#[derive(Clone, Copy, Debug, PartialEq, Eq, Structural)]
pub enum LotteryError {
    /// Someone other than the owner attempted an owner-only operation.
    Permission,
    /// A round was to be created while the latest round is still open.
    Conflict,
    /// A ticket purchase or a draw was attempted with no open round.
    NoOpenJackpot,
    /// The balance of the buyer is below the price of a ticket.
    InsufficientBalance,
    /// The numbers are out of range or hold a duplicate.
    InvalidNumbers,
    /// A withdrawal was attempted with a balance of zero.
    NoFunds,
}

} // verus!
