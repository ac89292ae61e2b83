//! The data types of the book — orders, price levels, trades, statuses and
//! errors — together with their mathematical models and views.

use vstd::prelude::*;

verus! {

/// Which side of the book an order belongs to.
#[derive(Clone, Copy, PartialEq, Eq, Structural, Debug)]
pub enum Side {
    Bid,
    Offer,
}

/// The side an incoming order is matched against.
pub open spec fn opposite(side: Side) -> Side {
    match side {
        Side::Bid => Side::Offer,
        Side::Offer => Side::Bid,
    }
}

/// A submission: a request to buy (bid) or sell (offer) `quantity` units of
/// the instrument at limit `price`. Prices and quantities are exact
/// fixed-point integers (minor currency units); both must be positive for
/// the engine to accept the order, and `id` must not already rest in the
/// book.
pub struct Order {
    pub id: u64,
    pub participant: String,
    pub side: Side,
    pub price: u64,
    pub quantity: u64,
}

/// An immutable record of one match. The price is always the resting
/// order's limit price: the side already in the book quotes the execution
/// price, the arriving order is the price taker.
#[derive(Debug)]
pub struct Trade {
    pub buyer: String,
    pub seller: String,
    pub price: u64,
    pub volume: u64,
}

/// An order resting in the book. Its price is the price of the level that
/// holds it; `sequence` is the engine-assigned arrival counter used as the
/// time-priority tiebreak; `quantity` is the remaining unfilled volume and
/// stays positive while the order rests.
pub struct RestingOrder {
    pub id: u64,
    pub participant: String,
    pub quantity: u64,
    pub sequence: u64,
}

/// All resting orders sharing one exact price on one side, held
/// first-in-first-out by arrival sequence. A level exists only while its
/// queue is non-empty.
pub struct PriceLevel {
    pub price: u64,
    pub orders: Vec<RestingOrder>,
}

/// What became of a submitted order once matching ran to quiescence.
#[derive(Clone, Copy, PartialEq, Eq, Structural, Debug)]
pub enum OrderStatus {
    /// The whole quantity was matched; nothing rests.
    Filled,
    /// Part of the quantity was matched; the remainder rests in the book.
    PartiallyRested { remaining_quantity: u64 },
    /// Nothing was matched; the whole order rests in the book.
    FullyRested,
}

/// The typed errors of the engine. None of them leaves a partial mutation
/// behind: a rejected operation leaves the book exactly as it was.
#[derive(Clone, Copy, PartialEq, Eq, Structural, Debug)]
pub enum EngineError {
    /// Zero quantity, zero price, or an id that already rests in the book.
    InvalidOrder,
    /// A cancellation named an id that is not resting in the book.
    OrderNotFound,
    /// The engine's arrival counter is exhausted; accepting the order would
    /// break sequence-based time priority.
    ArithmeticOverflow,
}

/// The mathematical model of a resting order.
#[verifier::ext_equal]
pub ghost struct OrderModel {
    pub id: u64,
    pub participant: Seq<char>,
    pub quantity: u64,
    pub sequence: u64,
}

/// The mathematical model of a price level.
#[verifier::ext_equal]
pub ghost struct LevelModel {
    pub price: u64,
    pub orders: Seq<OrderModel>,
}

/// The mathematical model of a trade.
#[verifier::ext_equal]
pub ghost struct TradeModel {
    pub buyer: Seq<char>,
    pub seller: Seq<char>,
    pub price: u64,
    pub volume: u64,
}

impl DeepView for RestingOrder {
    type V = OrderModel;

    open spec fn deep_view(&self) -> OrderModel {
        OrderModel {
            id: self.id,
            participant: self.participant@,
            quantity: self.quantity,
            sequence: self.sequence,
        }
    }
}

impl DeepView for PriceLevel {
    type V = LevelModel;

    open spec fn deep_view(&self) -> LevelModel {
        LevelModel { price: self.price, orders: self.orders.deep_view() }
    }
}

impl DeepView for Trade {
    type V = TradeModel;

    open spec fn deep_view(&self) -> TradeModel {
        TradeModel {
            buyer: self.buyer@,
            seller: self.seller@,
            price: self.price,
            volume: self.volume,
        }
    }
}

} // verus!
