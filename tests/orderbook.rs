use tradekit::orderbook::arena::OrderArena;
use tradekit::orderbook::engine::{OrderBook, OrderError};
use tradekit::orderbook::types::{OrderEntry, PricePoint, Side, Trade, TraderId};

fn qty_sum(trades: &[Trade]) -> u32 {
    trades.iter().map(|t| t.quantity).sum()
}

#[test]
fn test_arena_allocation() {
    let mut arena = OrderArena::new(10);

    let entry = OrderEntry::new(1, TraderId::from_str("TRADER1"), 100);
    let idx = arena.allocate(entry).unwrap();

    assert_eq!(idx, 0);
    assert_eq!(arena.len(), 1);
    assert_eq!(arena.get(idx).unwrap().quantity, 100);
}

#[test]
fn test_arena_full() {
    let mut arena = OrderArena::new(2);

    let entry1 = OrderEntry::new(1, TraderId::from_str("T1"), 100);
    let entry2 = OrderEntry::new(2, TraderId::from_str("T2"), 200);
    let entry3 = OrderEntry::new(3, TraderId::from_str("T3"), 300);

    assert!(arena.allocate(entry1).is_some());
    assert!(arena.allocate(entry2).is_some());
    assert!(arena.allocate(entry3).is_none());
}

#[test]
fn test_arena_clear() {
    let mut arena = OrderArena::new(10);

    let _ = arena.allocate(OrderEntry::new(1, TraderId::from_str("T1"), 100));
    assert_eq!(arena.len(), 1);

    arena.clear();
    assert_eq!(arena.len(), 0);
    assert_eq!(arena.remaining_capacity(), 10);
}

#[test]
fn test_simple_buy_order() {
    let mut book = OrderBook::new();
    let trader = TraderId::from_str("TRADER1");

    let (order_id, trades) = book.limit_order(trader, Side::Buy, 10000, 100).unwrap();

    assert_eq!(order_id, 1);
    assert_eq!(trades.len(), 0);
    assert_eq!(book.best_bid(), Some(10000));
    assert_eq!(book.best_ask(), None);
}

#[test]
fn test_simple_match() {
    let mut book = OrderBook::new();
    let buyer = TraderId::from_str("BUYER");
    let seller = TraderId::from_str("SELLER");

    book.limit_order(seller, Side::Sell, 10000, 100).unwrap();

    let (_order_id, trades) = book.limit_order(buyer, Side::Buy, 10000, 100).unwrap();

    assert_eq!(trades.len(), 1);
    assert_eq!(trades[0].quantity, 100);
    assert_eq!(trades[0].price, 10000);
}

#[test]
fn test_partial_fill() {
    let mut book = OrderBook::new();
    let buyer = TraderId::from_str("BUYER");
    let seller = TraderId::from_str("SELLER");

    book.limit_order(seller, Side::Sell, 10000, 200).unwrap();

    let (_order_id, trades) = book.limit_order(buyer, Side::Buy, 10000, 50).unwrap();

    assert_eq!(trades.len(), 1);
    assert_eq!(trades[0].quantity, 50);
    assert_eq!(book.best_ask(), Some(10000));
}

#[test]
fn test_price_improvement() {
    let mut book = OrderBook::new();
    let buyer = TraderId::from_str("BUYER");
    let seller = TraderId::from_str("SELLER");

    book.limit_order(seller, Side::Sell, 10000, 100).unwrap();

    let (_order_id, trades) = book.limit_order(buyer, Side::Buy, 11000, 100).unwrap();

    assert_eq!(trades.len(), 1);
    assert_eq!(trades[0].price, 10000);
}

#[test]
fn test_cancel_order() {
    let mut book = OrderBook::new();
    let trader = TraderId::from_str("TRADER1");

    let (order_id, _) = book.limit_order(trader, Side::Buy, 10000, 100).unwrap();
    assert!(book.cancel_order(order_id));
    assert!(!book.cancel_order(order_id));
}

#[test]
fn test_spread() {
    let mut book = OrderBook::new();

    book.limit_order(TraderId::from_str("B"), Side::Buy, 9900, 100).unwrap();
    book.limit_order(TraderId::from_str("S"), Side::Sell, 10100, 100).unwrap();

    assert_eq!(book.best_bid(), Some(9900));
    assert_eq!(book.best_ask(), Some(10100));
    assert_eq!(book.spread(), Some(200));
    assert_eq!(book.mid_price(), Some(10000));
}

#[test]
fn scenario_basic_match_empties_book() {
    let mut book = OrderBook::with_capacity(20000, 100);
    let seller = TraderId::from_str("SELLER");
    let buyer = TraderId::from_str("BUYER");
    book.limit_order(seller, Side::Sell, 10000, 100).unwrap();
    let (_, trades) = book.limit_order(buyer, Side::Buy, 10000, 100).unwrap();
    assert_eq!(trades.len(), 1);
    assert_eq!(trades[0].price, 10000);
    assert_eq!(trades[0].quantity, 100);
    assert_eq!(trades[0].buyer, buyer);
    assert_eq!(trades[0].seller, seller);
    assert_eq!(book.best_bid(), None);
    assert_eq!(book.best_ask(), None);
}

#[test]
fn scenario_partial_fill_leaves_rest() {
    let mut book = OrderBook::with_capacity(20000, 100);
    book.limit_order(TraderId::from_str("SELLER"), Side::Sell, 9950, 500).unwrap();
    let (_, trades) = book.limit_order(TraderId::from_str("BUYER"), Side::Buy, 9950, 200).unwrap();
    assert_eq!(trades.len(), 1);
    assert_eq!(trades[0].quantity, 200);
    assert_eq!(book.best_ask(), Some(9950));
    // the 300 left are still there to be taken
    let (_, more) = book.limit_order(TraderId::from_str("BUYER2"), Side::Buy, 9950, 1000).unwrap();
    assert_eq!(qty_sum(&more), 300);
    assert_eq!(book.best_ask(), None);
    assert_eq!(book.best_bid(), Some(9950));
}

#[test]
fn scenario_price_improvement_for_aggressor() {
    let mut book = OrderBook::with_capacity(20000, 100);
    book.limit_order(TraderId::from_str("SELLER"), Side::Sell, 10000, 100).unwrap();
    let (_, trades) = book.limit_order(TraderId::from_str("BUYER"), Side::Buy, 10100, 100).unwrap();
    assert_eq!(trades.len(), 1);
    assert_eq!(trades[0].price, 10000);
}

#[test]
fn scenario_sell_aggressor_gets_bid_price() {
    let mut book = OrderBook::with_capacity(20000, 100);
    book.limit_order(TraderId::from_str("BUYER"), Side::Buy, 10100, 100).unwrap();
    let (_, trades) = book.limit_order(TraderId::from_str("SELLER"), Side::Sell, 10000, 40).unwrap();
    assert_eq!(trades.len(), 1);
    assert_eq!(trades[0].price, 10100);
    assert_eq!(trades[0].seller, TraderId::from_str("SELLER"));
    assert_eq!(book.best_bid(), Some(10100));
}

#[test]
fn scenario_cancel_then_recancel() {
    let mut book = OrderBook::with_capacity(20000, 100);
    let (x, _) = book.limit_order(TraderId::from_str("T"), Side::Buy, 9900, 100).unwrap();
    assert!(book.cancel_order(x));
    assert!(!book.cancel_order(x));
    // a later order does not bring the id back
    book.limit_order(TraderId::from_str("T"), Side::Buy, 9900, 100).unwrap();
    assert!(!book.cancel_order(x));
}

#[test]
fn cancel_unknown_id_is_false() {
    let mut book = OrderBook::with_capacity(100, 10);
    assert!(!book.cancel_order(42));
}

#[test]
fn fifo_within_price_level() {
    let mut book = OrderBook::with_capacity(20000, 100);
    let a = TraderId::from_str("A");
    let b = TraderId::from_str("B");
    book.limit_order(a, Side::Sell, 10000, 100).unwrap();
    book.limit_order(b, Side::Sell, 10000, 100).unwrap();
    let (_, trades) = book.limit_order(TraderId::from_str("X"), Side::Buy, 10000, 150).unwrap();
    assert_eq!(trades.len(), 2);
    assert_eq!(trades[0].seller, a);
    assert_eq!(trades[0].quantity, 100);
    assert_eq!(trades[1].seller, b);
    assert_eq!(trades[1].quantity, 50);
    let (_, rest) = book.limit_order(TraderId::from_str("Y"), Side::Buy, 10000, 10).unwrap();
    assert_eq!(rest[0].seller, b);
}

#[test]
fn best_price_first_across_levels() {
    let mut book = OrderBook::with_capacity(20000, 100);
    book.limit_order(TraderId::from_str("S2"), Side::Sell, 10200, 100).unwrap();
    book.limit_order(TraderId::from_str("S1"), Side::Sell, 10100, 100).unwrap();
    let (id, trades) = book.limit_order(TraderId::from_str("B"), Side::Buy, 10300, 250).unwrap();
    assert_eq!(trades.len(), 2);
    assert_eq!(trades[0].price, 10100);
    assert_eq!(trades[1].price, 10200);
    // conservation: 200 traded, 50 rest as a bid
    assert_eq!(qty_sum(&trades), 200);
    assert_eq!(book.best_bid(), Some(10300));
    assert_eq!(book.best_ask(), None);
    assert!(book.cancel_order(id));
}

#[test]
fn cancelled_orders_are_skipped() {
    let mut book = OrderBook::with_capacity(20000, 100);
    let (first, _) = book.limit_order(TraderId::from_str("A"), Side::Sell, 10000, 100).unwrap();
    book.limit_order(TraderId::from_str("B"), Side::Sell, 10000, 100).unwrap();
    assert!(book.cancel_order(first));
    let (_, trades) = book.limit_order(TraderId::from_str("X"), Side::Buy, 10000, 100).unwrap();
    assert_eq!(trades.len(), 1);
    assert_eq!(trades[0].seller, TraderId::from_str("B"));
    assert_eq!(book.best_ask(), None);
}

#[test]
fn book_never_crosses() {
    let mut book = OrderBook::with_capacity(1000, 100);
    let prices = [500u32, 505, 495, 510, 490, 500, 502, 498];
    for (i, p) in prices.iter().enumerate() {
        let side = if i % 2 == 0 { Side::Buy } else { Side::Sell };
        book.limit_order(TraderId::from_str("T"), side, *p, 10 + i as u32).unwrap();
        if let (Some(b), Some(a)) = (book.best_bid(), book.best_ask()) {
            assert!(b < a);
        }
    }
}

#[test]
fn conservation_of_quantity() {
    let mut book = OrderBook::with_capacity(1000, 100);
    book.limit_order(TraderId::from_str("S"), Side::Sell, 100, 30).unwrap();
    book.limit_order(TraderId::from_str("S"), Side::Sell, 101, 30).unwrap();
    let before = book.snapshot();
    let (_, trades) = book.limit_order(TraderId::from_str("B"), Side::Buy, 101, 100).unwrap();
    assert_eq!(qty_sum(&trades), 60);
    assert_eq!(before.active_orders, 2);
    let after = book.snapshot();
    assert_eq!(after.active_orders, 1);
    assert_eq!(after.bid_max, Some(101));
    assert_eq!(after.total_trades, 2);
}

#[test]
fn errors_leave_book_unchanged() {
    let mut book = OrderBook::with_capacity(1000, 1);
    let t = TraderId::from_str("T");
    assert_eq!(book.limit_order(t, Side::Buy, 100, 0).unwrap_err(), OrderError::InvalidOrder);
    assert_eq!(book.limit_order(t, Side::Buy, 0, 10).unwrap_err(), OrderError::InvalidOrder);
    assert_eq!(book.limit_order(t, Side::Buy, 1000, 10).unwrap_err(), OrderError::InvalidPrice);
    assert_eq!(book.next_order_id(), 1);
    book.limit_order(t, Side::Buy, 100, 10).unwrap();
    assert_eq!(book.limit_order(t, Side::Sell, 200, 10).unwrap_err(), OrderError::OrderBookFull);
    assert_eq!(book.next_order_id(), 2);
    assert_eq!(book.best_ask(), None);
}

#[test]
fn trade_log_and_next_id() {
    let mut book = OrderBook::with_capacity(1000, 10);
    book.set_next_order_id(500);
    let (id, _) = book.limit_order(TraderId::from_str("S"), Side::Sell, 10, 5).unwrap();
    assert_eq!(id, 500);
    book.limit_order(TraderId::from_str("B"), Side::Buy, 10, 5).unwrap();
    assert_eq!(book.trades().len(), 1);
    assert_eq!(book.next_order_id(), 502);
    book.clear_trades();
    assert_eq!(book.trades().len(), 0);
}

#[test]
fn spread_and_mid_need_both_sides() {
    let mut book = OrderBook::with_capacity(1000, 10);
    assert_eq!(book.spread(), None);
    assert_eq!(book.mid_price(), None);
    book.limit_order(TraderId::from_str("B"), Side::Buy, 99, 1).unwrap();
    assert_eq!(book.spread(), None);
    book.limit_order(TraderId::from_str("S"), Side::Sell, 102, 1).unwrap();
    assert_eq!(book.spread(), Some(3));
    assert_eq!(book.mid_price(), Some(100));
}

#[test]
fn trader_id_and_side_helpers() {
    let t = TraderId::from_str("ABCDEFGHIJ");
    assert_eq!(t.as_bytes(), b"ABCDEFGH");
    let short = TraderId::from_str("AB");
    assert_eq!(short.as_bytes(), &[b'A', b'B', 0, 0, 0, 0, 0, 0]);
    assert_eq!(TraderId::new(*b"12345678").as_bytes(), b"12345678");
    assert_eq!(Side::Buy.opposite(), Side::Sell);
    assert_eq!(Side::Sell.opposite(), Side::Buy);
}

#[test]
fn price_point_push_back() {
    let mut pp = PricePoint::default();
    assert!(pp.is_empty());
    pp.push_back(3);
    assert_eq!(pp.first_order_idx, Some(3));
    assert_eq!(pp.last_order_idx, Some(3));
    pp.push_back(7);
    assert_eq!(pp.first_order_idx, Some(3));
    assert_eq!(pp.last_order_idx, Some(7));
    let mut e = OrderEntry::new(1, TraderId::from_str("T"), 5);
    assert!(e.is_active());
    e.cancel();
    assert!(!e.is_active());
}

#[test]
fn full_arena_still_serves_orders_that_fill() {
    let mut book = OrderBook::with_capacity(1000, 1);
    book.limit_order(TraderId::from_str("S"), Side::Sell, 100, 50).unwrap();
    // the arena is full, but this buy needs no slot
    let (id, trades) = book.limit_order(TraderId::from_str("B"), Side::Buy, 100, 50).unwrap();
    assert_eq!(id, 2);
    assert_eq!(trades.len(), 1);
    assert_eq!(trades[0].quantity, 50);
    // this one would leave a rest, so it is refused and changes nothing
    assert_eq!(
        book.limit_order(TraderId::from_str("B"), Side::Buy, 100, 50).unwrap_err(),
        OrderError::OrderBookFull
    );
    assert_eq!(book.next_order_id(), 3);
    assert_eq!(book.trades().len(), 1);
}

#[test]
fn filled_order_is_terminal() {
    let mut book = OrderBook::new();
    let (s, _) = book.limit_order(TraderId::from_str("SELLER"), Side::Sell, 10000, 100).unwrap();
    book.limit_order(TraderId::from_str("BUYER"), Side::Buy, 10000, 100).unwrap();
    assert!(!book.cancel_order(s));
    let snap = book.snapshot();
    assert_eq!(snap.active_orders, 0);
    assert_eq!(snap.total_trades, 1);
    assert_eq!(book.next_order_id(), 3);
}
