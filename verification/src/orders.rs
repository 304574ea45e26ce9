use vstd::prelude::*;

verus! {

/// Which side of the book an order belongs to: `Bid` buys, `Ask` sells.
#[derive(Clone, Copy, Debug, PartialEq, Eq, Structural)]
pub enum Side {
    Bid,
    Ask,
}

/// How an incoming request is to be executed: a `Market` request matches
/// immediately against resting liquidity, a `Limit` request rests in the book.
#[derive(Clone, Copy, Debug, PartialEq, Eq, Structural)]
pub enum OrderType {
    Market,
    Limit,
}

/// A resting order. `price` is an integer amount in the price symbol's minor
/// unit; `quantity` is the remaining unfilled amount, reduced in place on
/// partial fills. `id` identifies the order within one queue.
#[derive(Clone, Copy, Debug)]
pub struct Order<Symbol> {
    pub id: u64,
    pub order_symbol: Symbol,
    pub price_symbol: Symbol,
    pub price: u64,
    pub quantity: u64,
    pub side: Side,
}

/// An order stripped of its symbols, for contexts where the instrument pair
/// is implied.
#[derive(Clone, Copy, Debug)]
pub struct ImpliedOrder {
    pub price: u64,
    pub quantity: u64,
    pub side: Side,
}

/// An incoming request: the order itself, how to execute it, and its arrival
/// instant. The timestamp is the tie-break key at equal price, so it must be
/// monotonically informative; a counter value works, larger meaning later.
#[derive(Clone, Copy, Debug)]
pub struct OrderRequest<Symbol> {
    pub order: Order<Symbol>,
    pub order_type: OrderType,
    pub timestamp: u64,
}

} // verus!
