//! Price primitives and the order and trade records.
//!
//! Prices and quantities are fixed-point amounts: a whole number of the
//! symbol's smallest unit (its tick for prices, its lot for quantities).

use vstd::prelude::*;

verus! {

/// Direction of an order.
#[derive(Debug, Clone, Copy, PartialEq, Eq, Structural)]
pub enum Side {
    Buy,
    Sell,
}

/// Kind of an order: a limit order carries a price bound, a market order
/// takes whatever liquidity rests on the other side.
#[derive(Debug, Clone, Copy, PartialEq, Eq, Structural)]
pub enum OrderType {
    Limit,
    Market,
}

/// A request to buy or sell `quantity` lots at `price` ticks.
#[derive(Debug, Clone, Copy, PartialEq, Eq, Structural)]
pub struct Order {
    pub id: u64,
    pub user_id: u64,
    /// Limit price in ticks; ignored for market orders.
    pub price: u64,
    /// Quantity in lots.
    pub quantity: u64,
    /// Millisecond epoch at which the engine accepted the order.
    pub timestamp: u64,
    pub order_type: OrderType,
    pub side: Side,
}

/// An execution between a buy order and a sell order.
#[derive(Debug, Clone, Copy, PartialEq, Eq, Structural)]
pub struct Trade {
    pub buy_order_id: u64,
    pub sell_order_id: u64,
    /// The resting (maker) order's price, in ticks.
    pub price: u64,
    pub quantity: u64,
    pub timestamp: u64,
}

/// Why a binary order record could not become an `Order`.
#[derive(Debug, Clone, Copy, PartialEq, Eq, Structural)]
pub enum RecordError {
    InvalidOrderType,
    InvalidSide,
}

/// The order type that a record's one-byte tag stands for.
pub open spec fn order_type_of_tag(tag: u8) -> Option<OrderType> {
    if tag == 0 {
        Some(OrderType::Limit)
    } else if tag == 1 {
        Some(OrderType::Market)
    } else {
        None
    }
}

/// The side that a record's one-byte tag stands for.
pub open spec fn side_of_tag(tag: u8) -> Option<Side> {
    if tag == 0 {
        Some(Side::Buy)
    } else if tag == 1 {
        Some(Side::Sell)
    } else {
        None
    }
}

/// The tag that a record uses for an order type.
pub open spec fn order_type_tag(t: OrderType) -> u8 {
    match t {
        OrderType::Limit => 0,
        OrderType::Market => 1,
    }
}

/// The tag that a record uses for a side.
pub open spec fn side_tag(s: Side) -> u8 {
    match s {
        Side::Buy => 0,
        Side::Sell => 1,
    }
}

/// What a binary order record with these fields decodes to.
pub open spec fn decoded_record(
    id: u64,
    user_id: u64,
    price: u64,
    quantity: u64,
    timestamp: u64,
    order_type_tag: u8,
    side_tag: u8,
) -> Result<Order, RecordError> {
    match (order_type_of_tag(order_type_tag), side_of_tag(side_tag)) {
        (None, _) => Err(RecordError::InvalidOrderType),
        (Some(_), None) => Err(RecordError::InvalidSide),
        (Some(order_type), Some(side)) => Ok(Order { id, user_id, price, quantity, timestamp, order_type, side }),
    }
}

/// Writing an order's fields and tags into a record and decoding it gives
/// the order back.
pub proof fn law_record_round_trip(o: Order)
    ensures
        decoded_record(o.id, o.user_id, o.price, o.quantity, o.timestamp, order_type_tag(o.order_type), side_tag(o.side))
            == Ok::<Order, RecordError>(o),
{
}

impl Side {
    /// The side that trades against this one.
    pub fn opposite(&self) -> (r: Side)
        ensures
            r != *self,
    {
        match self {
            Side::Buy => Side::Sell,
            Side::Sell => Side::Buy,
        }
    }

    /// The tag that the binary record uses for this side.
    pub fn tag(&self) -> (r: u8)
        ensures
            r == side_tag(*self),
            side_of_tag(r) == Some(*self),
    {
        match self {
            Side::Buy => 0,
            Side::Sell => 1,
        }
    }

    /// The side's name.
    pub fn as_str(&self) -> (r: &'static str)
        ensures
            *self == Side::Buy ==> r@ == "Buy"@,
            *self == Side::Sell ==> r@ == "Sell"@,
    {
        match self {
            Side::Buy => "Buy",
            Side::Sell => "Sell",
        }
    }
}

impl OrderType {
    /// The tag that the binary record uses for this order type.
    pub fn tag(&self) -> (r: u8)
        ensures
            r == order_type_tag(*self),
            order_type_of_tag(r) == Some(*self),
    {
        match self {
            OrderType::Limit => 0,
            OrderType::Market => 1,
        }
    }

    /// The order type's name.
    pub fn as_str(&self) -> (r: &'static str)
        ensures
            *self == OrderType::Limit ==> r@ == "Limit"@,
            *self == OrderType::Market ==> r@ == "Market"@,
    {
        match self {
            OrderType::Limit => "Limit",
            OrderType::Market => "Market",
        }
    }
}

impl Order {
    /// Builds an order from the fields of a binary order record, whose
    /// order type and side are one-byte tags (`Limit = 0, Market = 1`;
    /// `Buy = 0, Sell = 1`). Prices and quantities come already converted
    /// to ticks and lots.
    pub fn from_record(
        id: u64,
        user_id: u64,
        price: u64,
        quantity: u64,
        timestamp: u64,
        order_type_tag: u8,
        side_tag: u8,
    ) -> (r: Result<Order, RecordError>)
        ensures
            r == decoded_record(id, user_id, price, quantity, timestamp, order_type_tag, side_tag),
    {
        let order_type = if order_type_tag == 0 {
            OrderType::Limit
        } else if order_type_tag == 1 {
            OrderType::Market
        } else {
            return Err(RecordError::InvalidOrderType);
        };
        let side = if side_tag == 0 {
            Side::Buy
        } else if side_tag == 1 {
            Side::Sell
        } else {
            return Err(RecordError::InvalidSide);
        };
        Ok(Order { id, user_id, price, quantity, timestamp, order_type, side })
    }
}

} // verus!
