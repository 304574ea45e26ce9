use order_book::order_book::{OrderBook, OrderBookResponse, OrderQueue};
use order_book::orders::{Order, OrderRequest, OrderType, Side};

type Sym = &'static str;

fn req(
    id: u64,
    side: Side,
    order_type: OrderType,
    price: u64,
    quantity: u64,
    timestamp: u64,
) -> OrderRequest<Sym> {
    OrderRequest {
        order: Order {
            id,
            order_symbol: "ABC",
            price_symbol: "USD",
            price,
            quantity,
            side,
        },
        order_type,
        timestamp,
    }
}

fn limit(id: u64, side: Side, price: u64, quantity: u64, timestamp: u64) -> OrderRequest<Sym> {
    req(id, side, OrderType::Limit, price, quantity, timestamp)
}

fn market(id: u64, side: Side, quantity: u64, timestamp: u64) -> OrderRequest<Sym> {
    req(id, side, OrderType::Market, 0, quantity, timestamp)
}

#[test]
fn price_priority_bids() {
    let mut q: OrderQueue<Sym> = OrderQueue::new(Side::Bid, 8);
    assert!(q.insert(limit(1, Side::Bid, 100, 1, 1)));
    assert!(q.insert(limit(2, Side::Bid, 300, 1, 2)));
    assert!(q.insert(limit(3, Side::Bid, 200, 1, 3)));
    assert_eq!(q.peek().unwrap().price, 300);
    assert_eq!(q.pop().unwrap().id, 2);
    assert_eq!(q.peek().unwrap().price, 200);
}

#[test]
fn price_priority_asks() {
    let mut q: OrderQueue<Sym> = OrderQueue::new(Side::Ask, 8);
    assert!(q.insert(limit(1, Side::Ask, 100, 1, 1)));
    assert!(q.insert(limit(2, Side::Ask, 300, 1, 2)));
    assert!(q.insert(limit(3, Side::Ask, 50, 1, 3)));
    assert_eq!(q.peek().unwrap().price, 50);
    assert_eq!(q.pop().unwrap().id, 3);
    assert_eq!(q.peek().unwrap().price, 100);
}

#[test]
fn time_priority_at_equal_price() {
    let mut q: OrderQueue<Sym> = OrderQueue::new(Side::Bid, 8);
    assert!(q.insert(limit(7, Side::Bid, 500, 1, 20)));
    assert!(q.insert(limit(8, Side::Bid, 500, 1, 10)));
    assert_eq!(q.peek().unwrap().id, 8);
    assert_eq!(q.pop().unwrap().id, 8);
    assert_eq!(q.pop().unwrap().id, 7);
    assert!(q.pop().is_none());
}

#[test]
fn duplicate_id_rejected() {
    let mut q: OrderQueue<Sym> = OrderQueue::new(Side::Bid, 8);
    assert!(q.insert(limit(1, Side::Bid, 100, 5, 1)));
    assert!(!q.insert(limit(1, Side::Bid, 999, 9, 2)));
    let top = q.peek().unwrap();
    assert_eq!(top.price, 100);
    assert_eq!(top.quantity, 5);
    assert_eq!(q.pop().unwrap().id, 1);
    assert!(q.pop().is_none());
}

#[test]
fn lazy_deletion_never_returns_removed_id() {
    let mut q: OrderQueue<Sym> = OrderQueue::new(Side::Ask, 8);
    assert!(q.insert(limit(1, Side::Ask, 100, 1, 1)));
    assert!(q.insert(limit(2, Side::Ask, 200, 1, 2)));
    assert_eq!(q.pop().unwrap().id, 1);
    assert_eq!(q.peek().unwrap().id, 2);
    assert_eq!(q.pop().unwrap().id, 2);
    assert!(q.peek().is_none());
    assert!(q.pop().is_none());
}

#[test]
fn amend_loses_queue_position() {
    let mut q: OrderQueue<Sym> = OrderQueue::new(Side::Ask, 8);
    assert!(q.insert(limit(1, Side::Ask, 500, 1, 1)));
    assert!(q.insert(limit(2, Side::Ask, 500, 1, 2)));
    assert_eq!(q.peek().unwrap().id, 1);
    let amended = Order {
        id: 1,
        order_symbol: "ABC",
        price_symbol: "USD",
        price: 500,
        quantity: 1,
        side: Side::Ask,
    };
    assert!(q.amend(1, 500, amended, 3));
    assert_eq!(q.peek().unwrap().id, 2);
    assert_eq!(q.pop().unwrap().id, 2);
    assert_eq!(q.pop().unwrap().id, 1);
}

#[test]
fn amend_changes_price_and_rejects_unknown_id() {
    let mut q: OrderQueue<Sym> = OrderQueue::new(Side::Ask, 8);
    assert!(q.insert(limit(1, Side::Ask, 500, 1, 1)));
    assert!(q.insert(limit(2, Side::Ask, 400, 1, 2)));
    assert_eq!(q.peek().unwrap().id, 2);
    let amended = Order {
        id: 1,
        order_symbol: "ABC",
        price_symbol: "USD",
        price: 300,
        quantity: 1,
        side: Side::Ask,
    };
    assert!(q.amend(1, 300, amended, 3));
    assert_eq!(q.peek().unwrap().id, 1);
    assert_eq!(q.peek().unwrap().price, 300);
    assert!(!q.amend(99, 100, amended, 4));
}

#[test]
fn alter_head_on_empty_queue_fails() {
    let mut q: OrderQueue<Sym> = OrderQueue::new(Side::Bid, 8);
    let order = Order {
        id: 1,
        order_symbol: "ABC",
        price_symbol: "USD",
        price: 100,
        quantity: 1,
        side: Side::Bid,
    };
    assert!(!q.alter_head(order));
}

#[test]
fn alter_head_preserves_position() {
    let mut q: OrderQueue<Sym> = OrderQueue::new(Side::Bid, 8);
    assert!(q.insert(limit(1, Side::Bid, 100, 9, 1)));
    assert!(q.insert(limit(2, Side::Bid, 90, 4, 2)));
    let reduced = Order {
        id: 1,
        order_symbol: "ABC",
        price_symbol: "USD",
        price: 100,
        quantity: 6,
        side: Side::Bid,
    };
    assert!(q.alter_head(reduced));
    let top = q.peek().unwrap();
    assert_eq!(top.id, 1);
    assert_eq!(top.quantity, 6);
}

#[test]
fn spread_updates_through_fills() {
    let mut book: OrderBook<Sym> = OrderBook::new("ABC", "USD");
    assert!(matches!(
        book.handle_request(limit(1, Side::Bid, 10000, 1, 1)),
        OrderBookResponse::Unfulfilled
    ));
    assert!(matches!(
        book.handle_request(limit(2, Side::Ask, 20000, 2, 2)),
        OrderBookResponse::Unfulfilled
    ));
    assert_eq!(book.current_spread(), Some((10000, 20000)));
    assert!(matches!(
        book.handle_request(limit(3, Side::Ask, 15000, 2, 3)),
        OrderBookResponse::Unfulfilled
    ));
    assert_eq!(book.current_spread(), Some((10000, 15000)));
    assert!(matches!(
        book.handle_request(market(4, Side::Bid, 2, 4)),
        OrderBookResponse::Filled
    ));
    assert_eq!(book.current_spread(), Some((10000, 20000)));
}

#[test]
fn exact_match_consumes_best_order() {
    let mut book: OrderBook<Sym> = OrderBook::new("ABC", "USD");
    book.handle_request(limit(1, Side::Bid, 9000, 1, 1));
    book.handle_request(limit(2, Side::Ask, 15000, 2, 2));
    book.handle_request(limit(3, Side::Ask, 20000, 3, 3));
    assert!(matches!(
        book.handle_request(market(4, Side::Bid, 2, 4)),
        OrderBookResponse::Filled
    ));
    assert_eq!(book.current_spread(), Some((9000, 20000)));
    assert!(matches!(
        book.handle_request(market(5, Side::Bid, 3, 5)),
        OrderBookResponse::Filled
    ));
    assert_eq!(book.current_spread(), None);
}

#[test]
fn partial_consumption_reduces_in_place() {
    let mut book: OrderBook<Sym> = OrderBook::new("ABC", "USD");
    book.handle_request(limit(1, Side::Ask, 15000, 5, 1));
    book.handle_request(limit(2, Side::Ask, 15000, 9, 2));
    assert!(matches!(
        book.handle_request(market(3, Side::Bid, 2, 3)),
        OrderBookResponse::Filled
    ));
    // The first ask was reduced to 3 and kept its position: a request of
    // exactly 3 consumes it whole without touching the second ask.
    assert!(matches!(
        book.handle_request(market(4, Side::Bid, 3, 4)),
        OrderBookResponse::Filled
    ));
    assert_eq!(book.current_spread(), None);
    assert!(matches!(
        book.handle_request(market(5, Side::Bid, 9, 5)),
        OrderBookResponse::Filled
    ));
}

#[test]
fn absence_is_idempotent() {
    let mut book: OrderBook<Sym> = OrderBook::new("ABC", "USD");
    assert_eq!(book.current_spread(), None);
    assert_eq!(book.current_spread(), None);
    let mut q: OrderQueue<Sym> = OrderQueue::new(Side::Bid, 4);
    assert!(q.peek().is_none());
    assert!(q.peek().is_none());
    assert!(q.pop().is_none());
    assert!(q.pop().is_none());
}

#[test]
fn spread_needs_both_sides() {
    let mut book: OrderBook<Sym> = OrderBook::new("ABC", "USD");
    book.handle_request(limit(1, Side::Bid, 10000, 1, 1));
    assert_eq!(book.current_spread(), None);
    book.handle_request(limit(2, Side::Ask, 20000, 1, 2));
    assert_eq!(book.current_spread(), Some((10000, 20000)));
}

#[test]
fn market_with_no_liquidity_rests() {
    let mut book: OrderBook<Sym> = OrderBook::new("ABC", "USD");
    assert!(matches!(
        book.handle_request(market(1, Side::Bid, 2, 1)),
        OrderBookResponse::Unfulfilled
    ));
    // The unmatched request rests on the bid side and can be consumed there.
    assert!(matches!(
        book.handle_request(market(2, Side::Ask, 2, 2)),
        OrderBookResponse::Filled
    ));
}

#[test]
fn oversized_market_fills_across_levels() {
    let mut book: OrderBook<Sym> = OrderBook::new("ABC", "USD");
    book.handle_request(limit(1, Side::Ask, 15000, 2, 1));
    book.handle_request(limit(2, Side::Ask, 20000, 2, 2));
    assert!(matches!(
        book.handle_request(market(3, Side::Bid, 5, 3)),
        OrderBookResponse::PartiallyFilled
    ));
    // Both asks were consumed and the remainder of one unit rests as a bid.
    assert!(matches!(
        book.handle_request(market(4, Side::Ask, 1, 4)),
        OrderBookResponse::Filled
    ));
    assert_eq!(book.current_spread(), None);
}

#[test]
fn oversized_market_exact_across_levels() {
    let mut book: OrderBook<Sym> = OrderBook::new("ABC", "USD");
    book.handle_request(limit(1, Side::Ask, 15000, 2, 1));
    book.handle_request(limit(2, Side::Ask, 20000, 3, 2));
    assert!(matches!(
        book.handle_request(market(3, Side::Bid, 5, 3)),
        OrderBookResponse::Filled
    ));
    assert_eq!(book.current_spread(), None);
}

#[test]
fn duplicate_id_at_book_level_is_rejected() {
    let mut book: OrderBook<Sym> = OrderBook::new("ABC", "USD");
    assert!(matches!(
        book.handle_request(limit(1, Side::Bid, 10000, 1, 1)),
        OrderBookResponse::Unfulfilled
    ));
    assert!(matches!(
        book.handle_request(limit(1, Side::Bid, 11000, 1, 2)),
        OrderBookResponse::Rejected
    ));
    assert_eq!(book.current_spread(), None);
    book.handle_request(limit(2, Side::Ask, 20000, 1, 3));
    assert_eq!(book.current_spread(), Some((10000, 20000)));
}
