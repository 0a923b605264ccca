//! Commands that drive a book and the journal events that it produces.

use vstd::prelude::*;

use crate::order::{Order, Side, Trade};

verus! {

/// A command for one book.
#[derive(Debug, Clone, Copy, PartialEq, Eq, Structural)]
pub enum Command {
    /// Match the order and rest what is left of it, if it is a limit order.
    NewOrder(Order),
    /// Remove the resting order `id` from the level at (`side`, `price`).
    CancelOrder { id: u64, side: Side, price: u64 },
}

/// Why an incoming order was refused.
#[derive(Debug, Clone, Copy, PartialEq, Eq, Structural)]
pub enum RejectReason {
    /// Zero quantity, or a limit order with a zero price.
    InvalidInput,
    /// An order with the same id already rests in the book.
    DuplicateId,
}

/// Why an order left the book without being filled.
#[derive(Debug, Clone, Copy, PartialEq, Eq, Structural)]
pub enum CancelReason {
    /// A market order ran out of liquidity to trade against.
    MarketUnfilled,
    /// A cancel command removed the order.
    Requested,
}

/// What the book did.
#[derive(Debug, Clone, Copy, PartialEq, Eq, Structural)]
pub enum Event {
    OrderAccepted { id: u64 },
    OrderRested { id: u64, side: Side, price: u64, quantity: u64 },
    OrderFilled { id: u64 },
    OrderCanceled { id: u64, reason: CancelReason, remaining: u64 },
    OrderRejected { id: u64, reason: RejectReason },
    /// The cancel's coordinates locate no live order.
    CancelRejected { id: u64 },
    Trade { trade: Trade },
}

/// An event with the sequence number of the command that produced it.
#[derive(Debug, Clone, Copy, PartialEq, Eq, Structural)]
pub struct JournalEvent {
    pub seq: u64,
    pub event: Event,
}

/// Kind of a message on the order topic.
#[derive(Debug, Clone, Copy, PartialEq, Eq, Structural)]
pub enum LogType {
    NewOrder,
    CancelOrder,
    Trade,
}

/// A message on the order topic: its kind, a sequence number, and the order
/// or trade that it carries.
#[derive(Debug, Clone, Copy, PartialEq, Eq, Structural)]
pub struct SpotLog {
    pub log_type: LogType,
    pub seq_id: u64,
    pub order: Option<Order>,
    pub trade: Option<Trade>,
}

/// The command that a message asks for, if any.
pub open spec fn command_of(log: SpotLog) -> Option<Command> {
    match log.order {
        Some(o) => match log.log_type {
            LogType::NewOrder => Some(Command::NewOrder(o)),
            LogType::CancelOrder => Some(Command::CancelOrder { id: o.id, side: o.side, price: o.price }),
            LogType::Trade => None,
        },
        None => None,
    }
}

impl SpotLog {
    /// The command that this message asks for: a new order or a cancel of
    /// the order it carries. A trade report, or a message without an order,
    /// asks for none.
    pub fn to_command(&self) -> (r: Option<Command>)
        ensures
            r == command_of(*self),
    {
        match self.order {
            Some(o) => match self.log_type {
                LogType::NewOrder => Some(Command::NewOrder(o)),
                LogType::CancelOrder => Some(Command::CancelOrder { id: o.id, side: o.side, price: o.price }),
                LogType::Trade => None,
            },
            None => None,
        }
    }
}

} // verus!
